//! Text forms of learning keys and actions, and the field splitting used by
//! the persisted policy format.

use vstd::prelude::*;

verus! {

/// The single error kind of every failed load.
#[derive(Clone, Copy, PartialEq, Eq, Structural, Debug)]
pub struct DeserializeError;

impl DeserializeError {
    /// Human-readable description of the error.
    pub fn message(&self) -> (r: &'static str)
        ensures
            r@ == "Error deserializing input"@,
    {
        "Error deserializing input"
    }
}

/// Values with a text form.
pub trait Serialize {
    /// The text this value is written as.
    spec fn text(&self) -> Seq<char>;

    fn serialize(&self) -> (r: String)
        ensures
            r@ == self.text(),
    ;
}

/// Values that can be read back from text.
pub trait Deserialize: Sized {
    /// The value a text denotes, or `None` when it is malformed.
    spec fn read(input: Seq<char>) -> Option<Self>;

    fn deserialize(input: &str) -> (r: Result<Self, DeserializeError>)
        ensures
            match Self::read(input@) {
                Some(v) => r == Ok::<Self, DeserializeError>(v),
                None => r == Err::<Self, DeserializeError>(DeserializeError),
            },
    ;
}

pub open spec fn is_digit(c: char) -> bool {
    '0' <= c && c <= '9'
}

pub open spec fn digit_value(c: char) -> int {
    c as int - '0' as int
}

/// The character of a decimal digit `d < 10`.
pub open spec fn digit_char(d: int) -> char {
    seq!['0', '1', '2', '3', '4', '5', '6', '7', '8', '9'][d]
}

/// Decimal text of `n`, without sign or leading zeros.
pub open spec fn decimal(n: nat) -> Seq<char>
    decreases n,
{
    if n < 10 {
        seq![digit_char(n as int)]
    } else {
        decimal(n / 10).push(digit_char((n % 10) as int))
    }
}

/// The value of a string of decimal digits.
pub open spec fn digits_value(t: Seq<char>) -> int
    decreases t.len(),
{
    if t.len() == 0 {
        0
    } else {
        digits_value(t.drop_last()) * 10 + digit_value(t.last())
    }
}

pub open spec fn all_digits(t: Seq<char>) -> bool {
    forall|k: int| 0 <= k < t.len() ==> is_digit(#[trigger] t[k])
}

/// The text after an optional leading `+`.
pub open spec fn unsigned_part(t: Seq<char>) -> Seq<char> {
    if t.len() > 0 && t[0] == '+' {
        t.drop_first()
    } else {
        t
    }
}

/// The byte a text denotes: an optional `+`, then one or more decimal digits
/// (leading zeros allowed) whose value is at most 255.
pub open spec fn parse_u8(t: Seq<char>) -> Option<u8> {
    let d = unsigned_part(t);
    if d.len() > 0 && all_digits(d) && digits_value(d) <= 255 {
        Some(digits_value(d) as u8)
    } else {
        None
    }
}

/// The pieces of `t` between occurrences of `sep`; always at least one.
pub open spec fn fields_of(t: Seq<char>, sep: char) -> Seq<Seq<char>>
    decreases t.len(),
{
    if t.len() == 0 {
        seq![Seq::empty()]
    } else {
        let prev = fields_of(t.drop_last(), sep);
        if t.last() == sep {
            prev.push(Seq::empty())
        } else {
            prev.update(prev.len() - 1, prev.last().push(t.last()))
        }
    }
}

/// There is always at least one field.
pub proof fn lemma_fields_len(t: Seq<char>, sep: char)
    ensures
        fields_of(t, sep).len() >= 1,
    decreases t.len(),
{
    if t.len() > 0 {
        lemma_fields_len(t.drop_last(), sep);
    }
}

/// The decimal texts of `s`, separated by single spaces.
pub open spec fn join_decimals(s: Seq<u8>) -> Seq<char>
    decreases s.len(),
{
    if s.len() == 0 {
        Seq::empty()
    } else if s.len() == 1 {
        decimal(s[0] as nat)
    } else {
        join_decimals(s.drop_last()).push(' ') + decimal(s.last() as nat)
    }
}

/// Text of one decimal digit.
fn digit_text(d: u8) -> (r: &'static str)
    requires
        d < 10,
    ensures
        r@ == seq![digit_char(d as int)],
{
    let digits = "0123456789";
    proof {
        reveal_strlit("0123456789");
    }
    let r = digits.substring_char(d as usize, d as usize + 1);
    assert(r@ =~= seq![digit_char(d as int)]);
    r
}

/// Decimal text of a byte.
pub fn u8_text(n: u8) -> (r: String)
    ensures
        r@ == decimal(n as nat),
{
    let mut r = String::new();
    proof {
        reveal_with_fuel(decimal, 3);
    }
    if n >= 100 {
        r.append(digit_text(n / 100));
    }
    if n >= 10 {
        r.append(digit_text((n / 10) % 10));
    }
    r.append(digit_text(n % 10));
    if n >= 100 {
        assert(decimal((n / 10) as nat) == decimal((n / 100) as nat).push(
            digit_char(((n / 10) % 10) as int),
        ));
    }
    assert(r@ =~= decimal(n as nat));
    r
}

/// Reads a byte in decimal, as `parse_u8` describes.
pub fn parse_byte(input: &str) -> (r: Option<u8>)
    ensures
        r == parse_u8(input@),
{
    let n = input.unicode_len();
    let ghost t = input@;
    let start: usize = if n > 0 && input.get_char(0) == '+' {
        1
    } else {
        0
    };
    let ghost d = unsigned_part(t);
    assert(d =~= t.subrange(start as int, n as int));
    if start == n {
        return None;
    }
    let mut acc: u32 = 0;
    let mut i: usize = start;
    while i < n
        invariant
            start <= i <= n,
            n == t.len(),
            t == input@,
            d == t.subrange(start as int, n as int),
            d == unsigned_part(t),
            acc as int == if digits_value(t.subrange(start as int, i as int)) < 256 {
                digits_value(t.subrange(start as int, i as int))
            } else {
                256
            },
            digits_value(t.subrange(start as int, i as int)) >= 0,
            all_digits(t.subrange(start as int, i as int)),
        decreases n - i,
    {
        let c = input.get_char(i);
        if !('0' <= c && c <= '9') {
            assert(!is_digit(d[i - start]));
            assert(!all_digits(d));
            assert(parse_u8(input@) is None);
            return None;
        }
        let ghost prev = t.subrange(start as int, i as int);
        let ghost next = t.subrange(start as int, i + 1);
        assert(next.drop_last() =~= prev);
        let v = (c as u32) - ('0' as u32);
        let ghost pv = digits_value(prev);
        assert(digits_value(next) == pv * 10 + v);
        if acc * 10 + v >= 256 {
            assert(pv * 10 + v >= 256) by (nonlinear_arith)
                requires
                    acc * 10 + v >= 256,
                    pv < 256 ==> acc == pv,
                    pv >= 256 ==> acc == 256,
                    pv >= 0,
                    v >= 0,
            ;
            acc = 256;
        } else {
            acc = acc * 10 + v;
        }
        i = i + 1;
        assert(all_digits(t.subrange(start as int, i as int))) by {
            assert forall|k: int| 0 <= k < next.len() implies is_digit(#[trigger] next[k]) by {
                if k < prev.len() {
                    assert(next[k] == prev[k]);
                }
            }
        }
    }
    assert(t.subrange(start as int, n as int) == d);
    if acc <= 255 {
        Some(acc as u8)
    } else {
        None
    }
}

/// Splits `input` at every occurrence of `sep`, as `fields_of` describes.
pub fn split_fields<'a>(input: &'a str, sep: char) -> (r: Vec<&'a str>)
    ensures
        r@.len() == fields_of(input@, sep).len(),
        forall|k: int| 0 <= k < r@.len() ==> #[trigger] r@[k]@ == fields_of(input@, sep)[k],
{
    let n = input.unicode_len();
    let ghost t = input@;
    let mut r: Vec<&'a str> = Vec::new();
    let mut start: usize = 0;
    let mut i: usize = 0;
    assert(t.take(0) =~= Seq::<char>::empty());
    assert(t.subrange(0, 0) =~= Seq::<char>::empty());
    while i < n
        invariant
            start <= i <= n,
            n == t.len(),
            t == input@,
            fields_of(t.take(i as int), sep).len() == r@.len() + 1,
            forall|k: int|
                0 <= k < r@.len() ==> #[trigger] r@[k]@ == fields_of(t.take(i as int), sep)[k],
            fields_of(t.take(i as int), sep)[r@.len() as int] == t.subrange(start as int, i as int),
        decreases n - i,
    {
        let c = input.get_char(i);
        assert(t.take(i + 1).drop_last() =~= t.take(i as int));
        assert(t.take(i + 1).last() == c);
        if c == sep {
            let piece = input.substring_char(start, i);
            r.push(piece);
            start = i + 1;
            assert(t.subrange(start as int, i + 1) =~= Seq::<char>::empty());
        } else {
            assert(t.subrange(start as int, i + 1) =~= t.subrange(start as int, i as int).push(c));
        }
        i = i + 1;
    }
    let last = input.substring_char(start, n);
    r.push(last);
    assert(t.take(n as int) =~= t);
    r
}

/// Whether `r` holds the bytes that the twelve texts `fs` denote.
pub open spec fn key_matches(r: [u8; 12], fs: Seq<Seq<char>>) -> bool {
    forall|k: int| 0 <= k < 12 ==> parse_u8(fs[k]) == Some(#[trigger] r@[k])
}

/// The learning key a text denotes: exactly twelve space-separated bytes.
pub open spec fn read_key(t: Seq<char>) -> Option<[u8; 12]> {
    let fs = fields_of(t, ' ');
    if fs.len() == 12 && forall|k: int| 0 <= k < 12 ==> (#[trigger] parse_u8(fs[k])) is Some {
        Some(choose|r: [u8; 12]| #[trigger] key_matches(r, fs))
    } else {
        None
    }
}

impl Serialize for u8 {
    open spec fn text(&self) -> Seq<char> {
        decimal(*self as nat)
    }

    fn serialize(&self) -> (r: String) {
        u8_text(*self)
    }
}

impl Deserialize for u8 {
    open spec fn read(input: Seq<char>) -> Option<u8> {
        parse_u8(input)
    }

    fn deserialize(input: &str) -> (r: Result<u8, DeserializeError>) {
        match parse_byte(input) {
            Some(v) => Ok(v),
            None => Err(DeserializeError),
        }
    }
}

impl Serialize for [u8; 12] {
    open spec fn text(&self) -> Seq<char> {
        join_decimals(self@)
    }

    fn serialize(&self) -> (r: String) {
        let mut r = String::new();
        let mut k: usize = 0;
        while k < 12
            invariant
                k <= 12,
                r@ == join_decimals(self@.take(k as int)),
            decreases 12 - k,
        {
            let piece = u8_text(self[k]);
            assert(self@.take(k + 1).drop_last() =~= self@.take(k as int));
            if k > 0 {
                r.append(" ");
                proof {
                    reveal_strlit(" ");
                }
            } else {
                assert(self@.take(1) =~= seq![self@[0]]);
            }
            r.append(piece.as_str());
            k = k + 1;
        }
        assert(self@.take(12) =~= self@);
        r
    }
}

impl Deserialize for [u8; 12] {
    open spec fn read(input: Seq<char>) -> Option<[u8; 12]> {
        read_key(input)
    }

    fn deserialize(input: &str) -> (r: Result<[u8; 12], DeserializeError>) {
        let fs = split_fields(input, ' ');
        let ghost gfs = fields_of(input@, ' ');
        if fs.len() != 12 {
            return Err(DeserializeError);
        }
        let mut values: [u8; 12] = [0u8; 12];
        let mut k: usize = 0;
        while k < 12
            invariant
                k <= 12,
                fs@.len() == 12,
                gfs.len() == 12,
                gfs == fields_of(input@, ' '),
                forall|j: int| 0 <= j < 12 ==> #[trigger] fs@[j]@ == gfs[j],
                values@.len() == 12,
                forall|j: int| 0 <= j < k ==> parse_u8(gfs[j]) == Some(#[trigger] values@[j]),
            decreases 12 - k,
        {
            assert(fs@[k as int]@ == gfs[k as int]);
            match parse_byte(fs[k]) {
                Some(v) => {
                    values[k] = v;
                },
                None => {
                    return Err(DeserializeError);
                },
            }
            k = k + 1;
        }
        assert(key_matches(values, gfs));
        assert forall|j: int| 0 <= j < 12 implies (#[trigger] parse_u8(gfs[j])) is Some by {
            assert(parse_u8(gfs[j]) == Some(values@[j]));
        }
        let ghost c = choose|r: [u8; 12]| #[trigger] key_matches(r, gfs);
        assert(values =~= c);
        Ok(values)
    }
}

proof fn lemma_digit(d: int)
    requires
        0 <= d < 10,
    ensures
        is_digit(digit_char(d)),
        digit_value(digit_char(d)) == d,
        digit_char(d) != '+',
        digit_char(d) != ' ',
        digit_char(d) != ';',
{
}

/// Decimal text is a non-empty run of digits that reads back as its value.
pub proof fn lemma_decimal(n: nat)
    ensures
        decimal(n).len() > 0,
        all_digits(decimal(n)),
        digits_value(decimal(n)) == n,
        !decimal(n).contains(' '),
        !decimal(n).contains(';'),
        !decimal(n).contains('+'),
    decreases n,
{
    if n < 10 {
        lemma_digit(n as int);
        assert(decimal(n) =~= seq![digit_char(n as int)]);
        assert(decimal(n).drop_last() =~= Seq::<char>::empty());
        assert(digits_value(Seq::<char>::empty()) == 0);
    } else {
        lemma_decimal(n / 10);
        lemma_digit((n % 10) as int);
        let p = decimal(n / 10);
        let c = digit_char((n % 10) as int);
        assert(decimal(n).drop_last() =~= p);
        assert(decimal(n).last() == c);
        assert((n / 10) * 10 + n % 10 == n);
        assert forall|k: int| 0 <= k < decimal(n).len() implies is_digit(#[trigger] decimal(n)[k]) by {
            if k < p.len() {
                assert(decimal(n)[k] == p[k]);
            }
        }
        assert forall|x: char| x == ' ' || x == ';' || x == '+' implies !decimal(n).contains(x) by {
            if decimal(n).contains(x) {
                let k = choose|k: int| 0 <= k < decimal(n).len() && decimal(n)[k] == x;
                if k < p.len() {
                    assert(p[k] == x);
                }
            }
        }
    }
}

/// Reading the text of a byte gives the byte back.
pub proof fn lemma_u8_round_trip(n: u8)
    ensures
        <u8 as Deserialize>::read(n.text()) == Some(n),
{
    lemma_decimal(n as nat);
}

proof fn lemma_fields_no_sep(y: Seq<char>, sep: char)
    requires
        !y.contains(sep),
    ensures
        fields_of(y, sep) == seq![y],
    decreases y.len(),
{
    if y.len() > 0 {
        let z = y.drop_last();
        assert(!z.contains(sep)) by {
            if z.contains(sep) {
                let k = choose|k: int| 0 <= k < z.len() && z[k] == sep;
                assert(y[k] == sep);
            }
        }
        lemma_fields_no_sep(z, sep);
        assert(y.last() != sep) by {
            assert(y[y.len() - 1] == y.last());
        }
        assert(z.push(y.last()) =~= y);
        assert(fields_of(y, sep) =~= seq![y]);
    } else {
        assert(y =~= Seq::<char>::empty());
    }
}

proof fn lemma_fields_append(x: Seq<char>, y: Seq<char>, sep: char)
    requires
        !y.contains(sep),
    ensures
        fields_of(x.push(sep) + y, sep) == fields_of(x, sep).push(y),
    decreases y.len(),
{
    let t = x.push(sep) + y;
    if y.len() == 0 {
        assert(t =~= x.push(sep));
        assert(t.drop_last() =~= x);
        assert(y =~= Seq::<char>::empty());
    } else {
        let z = y.drop_last();
        assert(!z.contains(sep)) by {
            if z.contains(sep) {
                let k = choose|k: int| 0 <= k < z.len() && z[k] == sep;
                assert(y[k] == sep);
            }
        }
        lemma_fields_append(x, z, sep);
        assert(t.drop_last() =~= x.push(sep) + z);
        assert(t.last() == y.last());
        assert(y.last() != sep) by {
            assert(y[y.len() - 1] == y.last());
        }
        assert(z.push(y.last()) =~= y);
        assert(fields_of(t, sep) =~= fields_of(x, sep).push(y));
    }
}

/// The fields of a space-joined list of decimals are those decimals.
proof fn lemma_fields_join(s: Seq<u8>)
    requires
        s.len() >= 1,
    ensures
        fields_of(join_decimals(s), ' ').len() == s.len(),
        forall|k: int|
            0 <= k < s.len() ==> #[trigger] fields_of(join_decimals(s), ' ')[k] == decimal(
                s[k] as nat,
            ),
    decreases s.len(),
{
    lemma_decimal(s.last() as nat);
    if s.len() == 1 {
        lemma_decimal(s[0] as nat);
        lemma_fields_no_sep(decimal(s[0] as nat), ' ');
    } else {
        let p = s.drop_last();
        lemma_fields_join(p);
        lemma_fields_append(join_decimals(p), decimal(s.last() as nat), ' ');
        assert forall|k: int| 0 <= k < s.len() implies #[trigger] fields_of(
            join_decimals(s),
            ' ',
        )[k] == decimal(s[k] as nat) by {
            if k < p.len() {
                assert(p[k] == s[k]);
            }
        }
    }
}

/// Reading the text of a learning key gives the key back.
pub proof fn lemma_key_round_trip(a: [u8; 12])
    ensures
        <[u8; 12] as Deserialize>::read(a.text()) == Some(a),
{
    let fs = fields_of(join_decimals(a@), ' ');
    lemma_fields_join(a@);
    assert forall|k: int| 0 <= k < 12 implies parse_u8(fs[k]) == Some(#[trigger] a@[k]) by {
        lemma_decimal(a@[k] as nat);
    }
    assert(key_matches(a, fs));
    assert forall|k: int| 0 <= k < 12 implies (#[trigger] parse_u8(fs[k])) is Some by {
        assert(parse_u8(fs[k]) == Some(a@[k]));
    }
    let c = choose|r: [u8; 12]| #[trigger] key_matches(r, fs);
    assert forall|k: int| 0 <= k < 12 implies c@[k] == a@[k] by {
        assert(parse_u8(fs[k]) == Some(c@[k]));
        assert(parse_u8(fs[k]) == Some(a@[k]));
    }
    assert(c =~= a);
}

/// A table record `<key>;<action>;<value>`: its key, its action and the
/// text of its value, or `None` when the record is malformed.
pub open spec fn read_entry(t: Seq<char>) -> Option<([u8; 12], u8, Seq<char>)> {
    let fs = fields_of(t, ';');
    if fs.len() == 3 && read_key(fs[0]) is Some && parse_u8(fs[1]) is Some {
        Some((read_key(fs[0])->Some_0, parse_u8(fs[1])->Some_0, fs[2]))
    } else {
        None
    }
}

/// The text of a table record, without its newline.
pub open spec fn entry_body(key: [u8; 12], action: u8, value: Seq<char>) -> Seq<char> {
    key.text() + seq![';'] + action.text() + seq![';'] + value
}

/// The text of a table record, newline included.
pub open spec fn entry_text(key: [u8; 12], action: u8, value: Seq<char>) -> Seq<char> {
    entry_body(key, action, value).push('\n')
}

/// Text `t` without a `'\r'` at its end.
pub open spec fn strip_cr(t: Seq<char>) -> Seq<char> {
    if t.len() > 0 && t.last() == '\r' {
        t.drop_last()
    } else {
        t
    }
}

/// The lines of a text: split at each `'\n'`, a `'\r'` right before a `'\n'`
/// removed, and no empty last line after a final `'\n'`.
pub open spec fn text_lines(t: Seq<char>) -> Seq<Seq<char>> {
    let fs = fields_of(t, '\n');
    let n = if fs.last().len() == 0 {
        fs.len() - 1
    } else {
        fs.len() as int
    };
    Seq::new(n as nat, |k: int| if k < fs.len() - 1 { strip_cr(fs[k]) } else { fs[k] })
}

/// Reads a table record, as `read_entry` describes.
pub fn parse_entry<'a>(line: &'a str) -> (r: Result<([u8; 12], u8, &'a str), DeserializeError>)
    ensures
        match read_entry(line@) {
            Some(e) => r matches Ok(v) && v.0 == e.0 && v.1 == e.1 && v.2@ == e.2,
            None => r == Err::<([u8; 12], u8, &'a str), DeserializeError>(DeserializeError),
        },
{
    let parts = split_fields(line, ';');
    if parts.len() != 3 {
        return Err(DeserializeError);
    }
    let key = match <[u8; 12] as Deserialize>::deserialize(parts[0]) {
        Ok(k) => k,
        Err(e) => return Err(e),
    };
    let action = match <u8 as Deserialize>::deserialize(parts[1]) {
        Ok(a) => a,
        Err(e) => return Err(e),
    };
    Ok((key, action, parts[2]))
}

/// Writes a table record, newline included.
pub fn format_entry(key: &[u8; 12], action: u8, value: &str) -> (r: String)
    ensures
        r@ == entry_text(*key, action, value@),
{
    let mut r = key.serialize();
    r.append(";");
    r.append(action.serialize().as_str());
    r.append(";");
    r.append(value);
    r.append("\n");
    proof {
        reveal_strlit(";");
        reveal_strlit("\n");
    }
    assert(r@ =~= entry_text(*key, action, value@));
    r
}

/// Splits a parameter line into its `;`-separated fields; fails unless
/// there are exactly `count` of them.
pub fn parse_params<'a>(line: &'a str, count: usize) -> (r: Result<Vec<&'a str>, DeserializeError>)
    ensures
        r is Ok <==> fields_of(line@, ';').len() == count,
        r matches Ok(v) ==> v@.len() == count && forall|k: int|
            0 <= k < count ==> #[trigger] v@[k]@ == fields_of(line@, ';')[k],
        r matches Err(e) ==> e == DeserializeError,
{
    let parts = split_fields(line, ';');
    if parts.len() != count {
        return Err(DeserializeError);
    }
    Ok(parts)
}

/// Splits a text at its first `'\n'`: the part before it and the part after.
pub fn split_first_line<'a>(input: &'a str) -> (r: Option<(&'a str, &'a str)>)
    ensures
        r is None <==> !input@.contains('\n'),
        r matches Some(p) ==> {
            let i = p.0@.len() as int;
            &&& i < input@.len()
            &&& input@[i] == '\n'
            &&& p.0@ == input@.take(i)
            &&& p.1@ == input@.skip(i + 1)
            &&& !p.0@.contains('\n')
        },
{
    let n = input.unicode_len();
    let mut i: usize = 0;
    while i < n
        invariant
            i <= n,
            n == input@.len(),
            forall|j: int| 0 <= j < i ==> input@[j] != '\n',
        decreases n - i,
    {
        if input.get_char(i) == '\n' {
            let head = input.substring_char(0, i);
            let tail = input.substring_char(i + 1, n);
            assert(head@ =~= input@.take(i as int));
            assert(tail@ =~= input@.skip(i + 1));
            assert(!head@.contains('\n')) by {
                if head@.contains('\n') {
                    let k = choose|k: int| 0 <= k < head@.len() && head@[k] == '\n';
                    assert(input@[k] == '\n');
                }
            }
            return Some((head, tail));
        }
        i = i + 1;
    }
    None
}

/// The lines of a text, as `text_lines` describes.
pub fn split_lines<'a>(input: &'a str) -> (r: Vec<&'a str>)
    ensures
        r@.len() == text_lines(input@).len(),
        forall|k: int| 0 <= k < r@.len() ==> #[trigger] r@[k]@ == text_lines(input@)[k],
{
    let parts = split_fields(input, '\n');
    let ghost fs = fields_of(input@, '\n');
    proof {
        lemma_fields_len(input@, '\n');
    }
    let count = parts.len();
    let keep: usize = if parts[count - 1].unicode_len() == 0 {
        count - 1
    } else {
        count
    };
    let mut r: Vec<&'a str> = Vec::new();
    let mut k: usize = 0;
    while k < keep
        invariant
            k <= keep,
            keep <= count,
            count == parts@.len(),
            count == fs.len(),
            fs == fields_of(input@, '\n'),
            keep == text_lines(input@).len(),
            forall|j: int| 0 <= j < count ==> #[trigger] parts@[j]@ == fs[j],
            r@.len() == k,
            forall|j: int| 0 <= j < k ==> #[trigger] r@[j]@ == text_lines(input@)[j],
        decreases keep - k,
    {
        let piece = parts[k];
        assert(piece@ == fs[k as int]);
        let len = piece.unicode_len();
        if k + 1 < count && len > 0 && piece.get_char(len - 1) == '\r' {
            let cut = piece.substring_char(0, len - 1);
            assert(cut@ =~= strip_cr(fs[k as int]));
            r.push(cut);
        } else {
            r.push(piece);
        }
        k = k + 1;
    }
    r
}

proof fn lemma_join_no_semicolon(s: Seq<u8>)
    ensures
        !join_decimals(s).contains(';'),
    decreases s.len(),
{
    if s.len() == 1 {
        lemma_decimal(s[0] as nat);
    } else if s.len() > 1 {
        let p = s.drop_last();
        lemma_join_no_semicolon(p);
        lemma_decimal(s.last() as nat);
        let a = join_decimals(p).push(' ');
        let b = decimal(s.last() as nat);
        if (a + b).contains(';') {
            let k = choose|k: int| 0 <= k < (a + b).len() && (a + b)[k] == ';';
            if k < a.len() - 1 {
                assert(join_decimals(p)[k] == ';');
            } else if k >= a.len() {
                assert(b[k - a.len()] == ';');
            }
        }
    }
}

/// A written table record reads back as the same key, action and value
/// text, provided the value text holds no `;`.
pub proof fn lemma_entry_round_trip(key: [u8; 12], action: u8, value: Seq<char>)
    requires
        !value.contains(';'),
    ensures
        read_entry(entry_body(key, action, value)) == Some((key, action, value)),
{
    let a = key.text();
    let b = action.text();
    lemma_join_no_semicolon(key@);
    lemma_decimal(action as nat);
    lemma_fields_no_sep(a, ';');
    lemma_fields_append(a, b, ';');
    lemma_fields_append(a.push(';') + b, value, ';');
    assert(entry_body(key, action, value) =~= (a.push(';') + b).push(';') + value);
    assert(a + seq![';'] =~= a.push(';'));
    let fs = fields_of(entry_body(key, action, value), ';');
    assert(fs =~= seq![a, b, value]);
    lemma_key_round_trip(key);
    lemma_u8_round_trip(action);
}

} // verus!
