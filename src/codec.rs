//! The text encoding of a frequency table: one line `<count> <key>` per
//! entry, with backslash written `\\` and the line break written `\n` in keys.
use vstd::prelude::*;
use crate::table::{FreqTable, map_of, distinct_keys, lemma_map_of_dom};
use vstd::std_specs::iter::IteratorSpec;

verus! {

/// Why a text is not a valid encoding of a table.
#[derive(Clone, Copy, Debug, PartialEq, Eq, Structural)]
pub enum FormatError {
    /// A non-empty line has no space between count and key.
    MissingSeparator,
    /// The text before the first space is not an unsigned 64-bit integer.
    InvalidCount,
}

/// How one key character is written.
pub open spec fn escape_char(c: char) -> Seq<char> {
    if c == '\\' {
        seq!['\\', '\\']
    } else if c == '\n' {
        seq!['\\', 'n']
    } else {
        seq![c]
    }
}

/// How a key is written.
pub open spec fn escape(k: Seq<char>) -> Seq<char>
    decreases k.len(),
{
    if k.len() == 0 {
        Seq::empty()
    } else {
        escape_char(k[0]) + escape(k.drop_first())
    }
}

/// Reads a written key back: `\\` and `\n` are escapes; any other
/// character, a lone backslash included, stands for itself.
pub open spec fn unescape(t: Seq<char>) -> Seq<char>
    decreases t.len(),
{
    if t.len() == 0 {
        Seq::empty()
    } else if t.len() >= 2 && t[0] == '\\' && t[1] == '\\' {
        seq!['\\'] + unescape(t.skip(2))
    } else if t.len() >= 2 && t[0] == '\\' && t[1] == 'n' {
        seq!['\n'] + unescape(t.skip(2))
    } else {
        seq![t[0]] + unescape(t.skip(1))
    }
}

pub open spec fn digit_char(d: nat) -> char {
    ((d % 10) + 48) as char
}

pub open spec fn is_digit(c: char) -> bool {
    '0' <= c && c <= '9'
}

/// The decimal numeral of `n`, without leading zeros.
pub open spec fn decimal(n: nat) -> Seq<char>
    decreases n,
{
    if n < 10 {
        seq![digit_char(n)]
    } else {
        decimal(n / 10).push(digit_char(n % 10))
    }
}

/// The value of a string of decimal digits.
pub open spec fn digits_value(s: Seq<char>) -> nat
    decreases s.len(),
{
    if s.len() == 0 {
        0
    } else {
        digits_value(s.drop_last()) * 10 + ((s.last() as nat) - 48) as nat
    }
}

/// The count that a string of digits denotes: one or more decimal digits
/// whose value fits in 64 bits.
pub open spec fn digits_count(s: Seq<char>) -> Option<u64> {
    if s.len() > 0 && (forall|i: int| 0 <= i < s.len() ==> is_digit(#[trigger] s[i]))
        && digits_value(s) <= u64::MAX {
        Some(digits_value(s) as u64)
    } else {
        None
    }
}

/// The count that a token denotes: an optional `+` followed by the digits
/// of a value that fits in 64 bits.
pub open spec fn parse_count(s: Seq<char>) -> Option<u64> {
    if s.len() > 0 && s[0] == '+' {
        digits_count(s.skip(1))
    } else {
        digits_count(s)
    }
}

/// Index of the first `c` in `t`, or `t.len()` where there is none.
pub open spec fn first_index(t: Seq<char>, c: char) -> nat
    decreases t.len(),
{
    if t.len() == 0 {
        0
    } else if t[0] == c {
        0
    } else {
        1 + first_index(t.drop_first(), c)
    }
}

/// A non-empty line read as a key and its count.
pub open spec fn parse_line(l: Seq<char>) -> Result<(Seq<char>, u64), FormatError> {
    let sp = first_index(l, ' ') as int;
    if sp >= l.len() {
        Err(FormatError::MissingSeparator)
    } else {
        match parse_count(l.take(sp)) {
            Some(v) => Ok((unescape(l.skip(sp + 1)), v)),
            None => Err(FormatError::InvalidCount),
        }
    }
}

/// Reads the lines of `t` in order into `m`, a later line for a key
/// replacing an earlier one; empty lines are skipped.
pub open spec fn decode_into(t: Seq<char>, m: Map<Seq<char>, u64>) -> Result<Map<Seq<char>, u64>, FormatError>
    decreases t.len(),
{
    if t.len() == 0 {
        Ok(m)
    } else {
        let j = first_index(t, '\n') as int;
        let rest = if j < t.len() { t.skip(j + 1) } else { Seq::empty() };
        if j == 0 {
            decode_into(rest, m)
        } else {
            match parse_line(t.take(j)) {
                Ok(kv) => decode_into(rest, m.insert(kv.0, kv.1)),
                Err(e) => Err(e),
            }
        }
    }
}

/// The mapping a text encodes, or why it encodes none.
pub open spec fn decoding(t: Seq<char>) -> Result<Map<Seq<char>, u64>, FormatError> {
    decode_into(t, Map::empty())
}

/// The line for one entry, without its line break.
pub open spec fn entry_line(k: Seq<char>, v: u64) -> Seq<char> {
    decimal(v as nat) + seq![' '] + escape(k)
}

/// The lines for a list of entries, each ended by a line break.
pub open spec fn encode_pairs(s: Seq<(Seq<char>, u64)>) -> Seq<char>
    decreases s.len(),
{
    if s.len() == 0 {
        Seq::empty()
    } else {
        entry_line(s[0].0, s[0].1) + seq!['\n'] + encode_pairs(s.drop_first())
    }
}

/// The text that encodes a table: its entries in storage order.
pub open spec fn encoding(t: &FreqTable) -> Seq<char> {
    encode_pairs(t.pairs())
}

proof fn lemma_unescape_escape(k: Seq<char>)
    ensures
        unescape(escape(k)) == k,
    decreases k.len(),
{
    if k.len() > 0 {
        let e = escape(k.drop_first());
        let t = escape_char(k[0]) + e;
        lemma_unescape_escape(k.drop_first());
        if k[0] == '\\' || k[0] == '\n' {
            assert(t.skip(2) =~= e);
        } else {
            assert(t.skip(1) =~= e);
        }
        assert(seq![k[0]] + k.drop_first() =~= k);
    }
}

proof fn lemma_escape_no_break(k: Seq<char>)
    ensures
        forall|i: int| 0 <= i < escape(k).len() ==> escape(k)[i] != '\n',
    decreases k.len(),
{
    if k.len() > 0 {
        lemma_escape_no_break(k.drop_first());
        let e = escape(k.drop_first());
        let t = escape_char(k[0]) + e;
        assert forall|i: int| 0 <= i < t.len() implies t[i] != '\n' by {
            if i >= escape_char(k[0]).len() {
                assert(t[i] == e[i - escape_char(k[0]).len()]);
            }
        }
    }
}

proof fn lemma_decimal(n: nat)
    ensures
        decimal(n).len() > 0,
        forall|i: int| 0 <= i < decimal(n).len() ==> is_digit(#[trigger] decimal(n)[i]),
        digits_value(decimal(n)) == n,
    decreases n,
{
    if n >= 10 {
        lemma_decimal(n / 10);
        let d = decimal(n / 10);
        assert(decimal(n).drop_last() =~= d);
        assert(digits_value(decimal(n)) == digits_value(d) * 10 + (n % 10));
    } else {
        assert(digits_value(decimal(n).drop_last()) == 0);
    }
}

proof fn lemma_first_index_after(a: Seq<char>, c: char, b: Seq<char>)
    requires
        forall|i: int| 0 <= i < a.len() ==> a[i] != c,
    ensures
        first_index(a + seq![c] + b, c) == a.len(),
    decreases a.len(),
{
    let t = a + seq![c] + b;
    if a.len() > 0 {
        assert(t.drop_first() =~= a.drop_first() + seq![c] + b);
        lemma_first_index_after(a.drop_first(), c, b);
    }
}

proof fn lemma_parse_entry_line(k: Seq<char>, v: u64)
    ensures
        parse_line(entry_line(k, v)) == Ok::<(Seq<char>, u64), FormatError>((k, v)),
        entry_line(k, v).len() > 0,
        forall|i: int| 0 <= i < entry_line(k, v).len() ==> entry_line(k, v)[i] != '\n',
{
    let d = decimal(v as nat);
    let l = entry_line(k, v);
    lemma_decimal(v as nat);
    lemma_escape_no_break(k);
    lemma_unescape_escape(k);
    assert forall|i: int| 0 <= i < d.len() implies d[i] != ' ' by {
        assert(is_digit(d[i]));
    }
    lemma_first_index_after(d, ' ', escape(k));
    assert(l.take(d.len() as int) =~= d);
    assert(l.skip(d.len() as int + 1) =~= escape(k));
    assert forall|i: int| 0 <= i < l.len() implies l[i] != '\n' by {
        if i < d.len() {
            assert(is_digit(d[i]));
        } else if i > d.len() {
            assert(l[i] == escape(k)[i - d.len() - 1]);
        }
    }
}

/// Decoding the lines of distinct entries adds exactly those entries.
proof fn lemma_decode_encode_pairs(s: Seq<(Seq<char>, u64)>, m: Map<Seq<char>, u64>)
    requires
        distinct_keys(s),
    ensures
        decode_into(encode_pairs(s), m) == Ok::<Map<Seq<char>, u64>, FormatError>(
            m.union_prefer_right(map_of(s)),
        ),
    decreases s.len(),
{
    if s.len() == 0 {
        assert(m.union_prefer_right(map_of(s)) =~= m);
    } else {
        let (k, v) = s[0];
        let l = entry_line(k, v);
        let e = encode_pairs(s.drop_first());
        let t = l + seq!['\n'] + e;
        lemma_parse_entry_line(k, v);
        lemma_first_index_after(l, '\n', e);
        assert(t.take(l.len() as int) =~= l);
        assert(t.skip(l.len() as int + 1) =~= e);
        lemma_decode_encode_pairs(s.drop_first(), m.insert(k, v));
        lemma_map_of_dom(s.drop_first(), k);
        if map_of(s.drop_first()).dom().contains(k) {
            let i = choose|i: int| 0 <= i < s.len() - 1 && s.drop_first()[i].0 == k;
            assert(s[i + 1].0 == s[0].0);
        }
        assert(m.insert(k, v).union_prefer_right(map_of(s.drop_first())) =~= m.union_prefer_right(
            map_of(s),
        ));
    }
}

/// Decoding the encoding of a table gives back exactly its mapping.
pub proof fn lemma_round_trip(t: &FreqTable)
    requires
        t.wf(),
    ensures
        decoding(encoding(t)) == Ok::<Map<Seq<char>, u64>, FormatError>(t@),
{
    lemma_decode_encode_pairs(t.pairs(), Map::empty());
    assert(Map::<Seq<char>, u64>::empty().union_prefer_right(t@) =~= t@);
}

proof fn lemma_first_index_at(s: Seq<char>, c: char, p: int)
    requires
        0 <= p <= s.len(),
        forall|k: int| 0 <= k < p ==> s[k] != c,
        p == s.len() || s[p] == c,
    ensures
        first_index(s, c) == p,
    decreases s.len(),
{
    if s.len() > 0 && p > 0 {
        lemma_first_index_at(s.drop_first(), c, p - 1);
    }
}

proof fn lemma_digits_value_prefix(s: Seq<char>, p: int)
    requires
        0 <= p <= s.len(),
    ensures
        digits_value(s) >= digits_value(s.take(p)),
    decreases s.len(),
{
    if p < s.len() {
        lemma_digits_value_prefix(s.drop_last(), p);
        assert(s.drop_last().take(p) =~= s.take(p));
    } else {
        assert(s.take(p) =~= s);
    }
}

/// Appends the escaped form of `key` to `out`.
fn push_escaped(out: &mut Vec<char>, key: &Vec<char>)
    ensures
        final(out)@ == old(out)@ + escape(key@),
{
    let ghost start = out@;
    let mut i: usize = 0;
    assert(key@.skip(0) =~= key@);
    while i < key.len()
        invariant
            i <= key@.len(),
            out@ + escape(key@.skip(i as int)) == start + escape(key@),
        decreases key@.len() - i,
    {
        let ghost before = out@;
        let c = key[i];
        if c == '\\' {
            out.push('\\');
            out.push('\\');
        } else if c == '\n' {
            out.push('\\');
            out.push('n');
        } else {
            out.push(c);
        }
        proof {
            assert(key@.skip(i as int).drop_first() =~= key@.skip(i + 1));
            assert(out@ =~= before + escape_char(c));
            assert(out@ + escape(key@.skip(i + 1)) =~= before + escape(key@.skip(i as int)));
        }
        i = i + 1;
    }
    assert(key@.skip(i as int) =~= Seq::<char>::empty());
    assert(out@ =~= out@ + escape(key@.skip(i as int)));
}

/// Appends the decimal numeral of `n` to `out`.
fn push_decimal(out: &mut Vec<char>, n: u64)
    ensures
        final(out)@ == old(out)@ + decimal(n as nat),
    decreases n,
{
    if n >= 10 {
        push_decimal(out, n / 10);
    }
    let d: u8 = (n % 10) as u8;
    out.push((d + 48u8) as char);
    assert(out@ =~= old(out)@ + decimal(n as nat));
}

/// The encoding of `t` as characters.
pub fn encode_chars(t: &FreqTable) -> (r: Vec<char>)
    ensures
        r@ == encoding(t),
{
    let ghost s = t.pairs();
    let mut out: Vec<char> = Vec::new();
    let mut i: usize = 0;
    assert(s.skip(0) =~= s);
    assert(out@ + encode_pairs(s) =~= encode_pairs(s));
    while i < t.len()
        invariant
            s == t.pairs(),
            i <= s.len(),
            out@ + encode_pairs(s.skip(i as int)) == encode_pairs(s),
        decreases s.len() - i,
    {
        let ghost before = out@;
        push_decimal(&mut out, t.count_at(i));
        out.push(' ');
        push_escaped(&mut out, t.key_at(i));
        out.push('\n');
        proof {
            assert(s.skip(i as int).drop_first() =~= s.skip(i + 1));
            assert(out@ =~= before + entry_line(s[i as int].0, s[i as int].1) + seq!['\n']);
            assert(out@ + encode_pairs(s.skip(i + 1)) =~= before + encode_pairs(s.skip(i as int)));
        }
        i = i + 1;
    }
    assert(s.skip(i as int) =~= Seq::<(Seq<char>, u64)>::empty());
    assert(out@ =~= out@ + encode_pairs(s.skip(i as int)));
    out
}

/// Relies on `String`'s `FromIterator<&char>`: the string of the given
/// characters, in order.
#[verifier::external_body]
fn string_from_chars(v: &Vec<char>) -> (r: String)
    ensures
        r@ == v@,
{
    v.iter().collect()
}

/// The characters of a string, in order.
fn chars_of(s: &str) -> (r: Vec<char>)
    ensures
        r@ == s@,
{
    broadcast use vstd::string::axiom_spec_iter, vstd::string::next_postcondition;

    let mut it = s.chars();
    let mut r: Vec<char> = Vec::new();
    assert(r@ + it.remaining() =~= s@);
    loop
        invariant
            r@ + it.remaining() == s@,
            it.decrease() is Some,
        ensures
            r@ == s@,
        decreases it.decrease()->0,
    {
        let ghost before = it.remaining();
        match it.next() {
            Some(c) => {
                let ghost prev = r@;
                r.push(c);
                assert(r@ + it.remaining() =~= prev + before);
            },
            None => {
                assert(r@ =~= s@);
                break ;
            },
        }
    }
    r
}

/// The text encoding of `t`: one line `<count> <escaped key>` per entry.
pub fn encode(t: &FreqTable) -> (r: String)
    ensures
        r@ == encoding(t),
{
    let v = encode_chars(t);
    string_from_chars(&v)
}

/// The characters of `t` from `from` up to, not including, `to`.
fn copy_range(t: &Vec<char>, from: usize, to: usize) -> (r: Vec<char>)
    requires
        from <= to <= t@.len(),
    ensures
        r@ == t@.subrange(from as int, to as int),
{
    let mut r: Vec<char> = Vec::new();
    let mut i: usize = from;
    while i < to
        invariant
            from <= i <= to <= t@.len(),
            r@ == t@.subrange(from as int, i as int),
        decreases to - i,
    {
        r.push(t[i]);
        assert(r@ =~= t@.subrange(from as int, i + 1));
        i = i + 1;
    }
    r
}

/// Index of the first `c` in `t` at or after `from`, or `t.len()`.
fn find_char(t: &Vec<char>, c: char, from: usize) -> (r: usize)
    requires
        from <= t@.len(),
    ensures
        from <= r <= t@.len(),
        first_index(t@.skip(from as int), c) == r - from,
{
    let mut j: usize = from;
    while j < t.len() && t[j] != c
        invariant
            from <= j <= t@.len(),
            forall|k: int| from <= k < j ==> t@[k] != c,
        decreases t@.len() - j,
    {
        j = j + 1;
    }
    proof {
        lemma_first_index_at(t@.skip(from as int), c, j - from);
    }
    j
}

/// The count a string of digits denotes, if it denotes one.
fn digits_count_exec(s: &Vec<char>) -> (r: Option<u64>)
    ensures
        r == digits_count(s@),
{
    if s.len() == 0 {
        return None;
    }
    let mut v: u64 = 0;
    let mut i: usize = 0;
    let mut fits = true;
    while i < s.len()
        invariant
            i <= s@.len(),
            forall|k: int| 0 <= k < i ==> is_digit(#[trigger] s@[k]),
            fits ==> v as nat == digits_value(s@.take(i as int)),
            !fits ==> digits_value(s@.take(i as int)) > u64::MAX,
        decreases s@.len() - i,
    {
        let c = s[i];
        if !('0' <= c && c <= '9') {
            return None;
        }
        let d: u64 = (c as u32 - 48) as u64;
        proof {
            assert(s@.take(i + 1).drop_last() =~= s@.take(i as int));
            lemma_digits_value_prefix(s@.take(i + 1), i as int);
            assert(s@.take(i + 1).take(i as int) =~= s@.take(i as int));
        }
        if fits {
            if v > (u64::MAX - d) / 10 {
                fits = false;
            } else {
                v = v * 10 + d;
            }
        }
        i = i + 1;
    }
    assert(s@.take(i as int) =~= s@);
    if fits {
        Some(v)
    } else {
        None
    }
}

/// The count a token denotes, if it denotes one.
fn parse_count_exec(s: &Vec<char>) -> (r: Option<u64>)
    ensures
        r == parse_count(s@),
{
    if s.len() > 0 && s[0] == '+' {
        let digits = copy_range(s, 1, s.len());
        assert(digits@ =~= s@.skip(1));
        digits_count_exec(&digits)
    } else {
        digits_count_exec(s)
    }
}

/// Reads an escaped key back.
fn unescape_exec(s: &Vec<char>) -> (r: Vec<char>)
    ensures
        r@ == unescape(s@),
{
    let mut out: Vec<char> = Vec::new();
    let mut i: usize = 0;
    assert(s@.skip(0) =~= s@);
    assert(out@ + unescape(s@) =~= unescape(s@));
    while i < s.len()
        invariant
            i <= s@.len(),
            out@ + unescape(s@.skip(i as int)) == unescape(s@),
        decreases s@.len() - i,
    {
        let ghost before = out@;
        let ghost rest = s@.skip(i as int);
        if i + 1 < s.len() && s[i] == '\\' && s[i + 1] == '\\' {
            out.push('\\');
            assert(rest.skip(2) =~= s@.skip(i + 2));
            i = i + 2;
        } else if i + 1 < s.len() && s[i] == '\\' && s[i + 1] == 'n' {
            out.push('\n');
            assert(rest.skip(2) =~= s@.skip(i + 2));
            i = i + 2;
        } else {
            out.push(s[i]);
            assert(rest.skip(1) =~= s@.skip(i + 1));
            i = i + 1;
        }
        assert(out@ + unescape(s@.skip(i as int)) =~= before + unescape(rest));
    }
    assert(s@.skip(i as int) =~= Seq::<char>::empty());
    assert(out@ =~= out@ + unescape(s@.skip(i as int)));
    out
}

/// Reads one non-empty line as a key and its count.
fn parse_line_exec(l: &Vec<char>) -> (r: Result<(Vec<char>, u64), FormatError>)
    ensures
        match r {
            Ok(kv) => parse_line(l@) == Ok::<(Seq<char>, u64), FormatError>((kv.0@, kv.1)),
            Err(e) => parse_line(l@) == Err::<(Seq<char>, u64), FormatError>(e),
        },
{
    let sp = find_char(l, ' ', 0);
    assert(l@.skip(0) =~= l@);
    if sp >= l.len() {
        return Err(FormatError::MissingSeparator);
    }
    let count = copy_range(l, 0, sp);
    assert(count@ =~= l@.take(sp as int));
    match parse_count_exec(&count) {
        None => Err(FormatError::InvalidCount),
        Some(v) => {
            let escaped = copy_range(l, sp + 1, l.len());
            assert(escaped@ =~= l@.skip(sp + 1));
            let key = unescape_exec(&escaped);
            Ok((key, v))
        },
    }
}

/// Reads a table from its encoding given as characters.
pub fn decode_chars(t: &Vec<char>) -> (r: Result<FreqTable, FormatError>)
    ensures
        match r {
            Ok(table) => table.wf() && decoding(t@) == Ok::<Map<Seq<char>, u64>, FormatError>(
                table@,
            ),
            Err(e) => decoding(t@) == Err::<Map<Seq<char>, u64>, FormatError>(e),
        },
{
    let mut table = FreqTable::new();
    let mut i: usize = 0;
    assert(t@.skip(0) =~= t@);
    while i < t.len()
        invariant
            i <= t@.len(),
            table.wf(),
            decode_into(t@.skip(i as int), table@) == decoding(t@),
        decreases t@.len() - i,
    {
        let ghost rest = t@.skip(i as int);
        let j = find_char(t, '\n', i);
        let ghost after = if j < t@.len() { t@.skip(j + 1) } else { Seq::<char>::empty() };
        proof {
            if j < t@.len() {
                assert(rest.skip(j - i + 1) =~= after);
            } else {
                assert(after =~= Seq::<char>::empty());
            }
        }
        if j > i {
            let line = copy_range(t, i, j);
            assert(line@ =~= rest.take(j - i));
            match parse_line_exec(&line) {
                Ok(kv) => {
                    let (key, v) = kv;
                    table.set(key, v);
                },
                Err(e) => {
                    return Err(e);
                },
            }
        }
        if j < t.len() {
            i = j + 1;
        } else {
            i = j;
            assert(t@.skip(i as int) =~= Seq::<char>::empty());
        }
    }
    assert(t@.skip(i as int) =~= Seq::<char>::empty());
    Ok(table)
}

/// Reads a table from its text encoding. Empty lines are skipped; a later
/// line for a key replaces an earlier one.
pub fn decode(text: &str) -> (r: Result<FreqTable, FormatError>)
    ensures
        match r {
            Ok(table) => table.wf() && decoding(text@) == Ok::<Map<Seq<char>, u64>, FormatError>(
                table@,
            ),
            Err(e) => decoding(text@) == Err::<Map<Seq<char>, u64>, FormatError>(e),
        },
{
    let v = chars_of(text);
    decode_chars(&v)
}

} // verus!
