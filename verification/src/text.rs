//! Building text.
use crate::decimal::{digits, write_decimal};
use vstd::prelude::*;
use vstd::string::StringExecFns;

verus! {

/// `String::push` appends one character.
pub assume_specification[ String::push ](s: &mut String, c: char)
    ensures
        final(s)@ == old(s)@.push(c),
;

/// The decimal digits of a number, as text.
pub open spec fn number(n: int) -> Seq<char> {
    Seq::new(digits(n).len(), |i: int| digits(n)[i] as char)
}

/// Append the decimal digits of a number.
pub fn push_number(s: &mut String, n: u64)
    ensures
        final(s)@ == old(s)@ + number(n as int),
{
    let d = write_decimal(n);
    let ghost was = s@;
    let mut i: usize = 0;
    while i < d.len()
        invariant
            i <= d@.len(),
            d@ == digits(n as int),
            s@ == was + number(n as int).take(i as int),
        decreases d@.len() - i,
    {
        s.push(d[i] as char);
        proof {
            assert(number(n as int).take(i + 1) =~= number(n as int).take(i as int).push(
                d@[i as int] as char,
            ));
        }
        i = i + 1;
    }
    proof {
        assert(number(n as int).take(d@.len() as int) =~= number(n as int));
    }
}

/// Append the decimal digits of a number of any size.
pub fn push_big(s: &mut String, n: u128)
    ensures
        final(s)@ == old(s)@ + number(n as int),
    decreases n,
{
    if n <= u64::MAX as u128 {
        push_number(s, n as u64);
    } else {
        let ghost was = s@;
        push_big(s, n / 10);
        let last = (n % 10) as u8;
        s.push((48 + last) as char);
        proof {
            assert(number(n as int) =~= number(n as int / 10).push((48 + last) as u8 as char));
            assert(s@ =~= was + number(n as int));
        }
    }
}

/// A sentence with a number in it.
pub fn say(a: &str, n: u64, b: &str) -> (s: String)
    ensures
        s@ == a@ + number(n as int) + b@,
{
    let mut s = String::from_str(a);
    push_number(&mut s, n);
    s.append(b);
    s
}

/// What `Debug` makes of a text: the text in quotes, escaped where needed.
pub uninterp spec fn quoted(s: Seq<char>) -> Seq<char>;

/// `{:?}` of a `str`: quotes and escapes depend on the text alone.
#[verifier::external_body]
pub(crate) fn quote(s: &str) -> (r: String)
    ensures
        r@ == quoted(s@),
{
    format!("{:?}", s)
}

/// `str` equality compares the text.
pub assume_specification[ <str as PartialEq>::eq ](a: &str, b: &str) -> (r: bool)
    ensures
        r == (a@ == b@),
;

/// A text in lower case.
pub uninterp spec fn lowercased(s: Seq<char>) -> Seq<char>;

/// `str::to_lowercase`: the lower case of a text depends on the text alone.
#[verifier::external_body]
pub(crate) fn lowercase(s: &str) -> (r: String)
    ensures
        r@ == lowercased(s@),
{
    s.to_lowercase()
}

/// `part` stands in `s`.
pub open spec fn found_in(s: Seq<char>, part: Seq<char>) -> bool {
    exists|i: int|
        0 <= i <= s.len() - part.len() && #[trigger] s.subrange(i, i + part.len()) == part
}

/// The characters of a text.
fn letters(s: &str) -> (v: Vec<char>)
    ensures
        v@ == s@,
{
    let mut v: Vec<char> = Vec::new();
    for c in it: s.chars()
        invariant
            it.seq() == s@,
            v@ == s@.take(it.index()),
    {
        v.push(c);
        proof {
            assert(s@.take(it.index() + 1) =~= s@.take(it.index()).push(c));
        }
    }
    proof {
        assert(s@.take(s@.len() as int) =~= s@);
    }
    v
}

/// Whether `part` stands in `s` from the `i`-th character on.
fn stands_at(s: &Vec<char>, part: &Vec<char>, i: usize) -> (r: bool)
    requires
        i + part@.len() <= s@.len(),
    ensures
        r == (s@.subrange(i as int, i + part@.len()) == part@),
{
    let n = s.len();
    let mut j: usize = 0;
    while j < part.len()
        invariant
            j <= part@.len(),
            n == s@.len(),
            i + part@.len() <= n,
            forall|k: int| 0 <= k < j ==> s@[i + k] == #[trigger] part@[k],
        decreases part@.len() - j,
    {
        if s[i + j] != part[j] {
            proof {
                assert(s@.subrange(i as int, i + part@.len())[j as int] != part@[j as int]);
            }
            return false;
        }
        j = j + 1;
    }
    proof {
        assert(s@.subrange(i as int, i + part@.len()) =~= part@);
    }
    true
}

/// Whether a text is part of another.
pub(crate) fn contains(s: &str, part: &str) -> (r: bool)
    ensures
        r == found_in(s@, part@),
{
    let (hay, pin) = (letters(s), letters(part));
    if pin.len() > hay.len() {
        return false;
    }
    let last = hay.len() - pin.len();
    let mut i: usize = 0;
    while i <= last
        invariant
            hay@ == s@,
            pin@ == part@,
            last == s@.len() - part@.len(),
            i <= last + 1,
            last <= hay.len(),
            forall|k: int|
                0 <= k < i ==> #[trigger] s@.subrange(k, k + part@.len()) != part@,
        decreases last + 1 - i,
    {
        if stands_at(&hay, &pin, i) {
            return true;
        }
        if i == last {
            return false;
        }
        i = i + 1;
    }
    false
}

/// White space.
pub open spec fn is_white(c: char) -> bool {
    let n = c as u32;
    ||| 9 <= n <= 13
    ||| n == 32
    ||| n == 0x85
    ||| n == 0xA0
    ||| n == 0x1680
    ||| 0x2000 <= n <= 0x200A
    ||| n == 0x2028
    ||| n == 0x2029
    ||| n == 0x202F
    ||| n == 0x205F
    ||| n == 0x3000
}

fn white(c: char) -> (r: bool)
    ensures
        r == is_white(c),
{
    let n = c as u32;
    (9 <= n && n <= 13) || n == 32 || n == 0x85 || n == 0xA0 || n == 0x1680 || (0x2000 <= n && n
        <= 0x200A) || n == 0x2028 || n == 0x2029 || n == 0x202F || n == 0x205F || n == 0x3000
}

/// How many characters of white space a text begins with, from `i` on.
pub open spec fn white_from(q: Seq<char>, i: int) -> int
    decreases q.len() - i,
{
    if i < q.len() && is_white(q[i]) {
        white_from(q, i + 1)
    } else {
        i
    }
}

/// How much of the first `n` characters is left without white space at the end.
pub open spec fn white_to(q: Seq<char>, n: int) -> int
    decreases n,
{
    if n > 0 && is_white(q[n - 1]) {
        white_to(q, n - 1)
    } else {
        n
    }
}

/// A text without white space around it.
pub open spec fn trimmed(q: Seq<char>) -> Seq<char> {
    let i = white_from(q, 0);
    let n = white_to(q, q.len() as int);
    if i >= n {
        seq![]
    } else {
        q.subrange(i, n)
    }
}

/// The first character that is no white space.
pub open spec fn first_solid(q: Seq<char>) -> Option<char> {
    let i = white_from(q, 0);
    if i < q.len() {
        Some(q[i])
    } else {
        None
    }
}

/// The first character of a text, if any, that is no white space.
pub fn first_of(s: &str) -> (r: Option<char>)
    ensures
        r == first_solid(s@),
{
    let n = s.unicode_len();
    let mut i: usize = 0;
    while i < n && white(s.get_char(i))
        invariant
            n == s@.len(),
            i <= n,
            white_from(s@, 0) == white_from(s@, i as int),
        decreases n - i,
    {
        i = i + 1;
    }
    if i < n {
        Some(s.get_char(i))
    } else {
        None
    }
}

/// The texts of a list of strings.
pub open spec fn texts(v: Seq<String>) -> Seq<Seq<char>> {
    Seq::new(v.len(), |i: int| v[i]@)
}

/// The same texts again.
pub fn copy_texts(v: &Vec<String>) -> (r: Vec<String>)
    ensures
        texts(r@) == texts(v@),
        r.len() == v.len(),
{
    let mut r: Vec<String> = Vec::new();
    let mut i: usize = 0;
    while i < v.len()
        invariant
            i <= v@.len(),
            r@.len() == i,
            forall|j: int| 0 <= j < i ==> #[trigger] r@[j]@ == v@[j]@,
        decreases v@.len() - i,
    {
        r.push(v[i].clone());
        i = i + 1;
    }
    proof {
        assert(texts(r@) =~= texts(v@));
    }
    r
}

/// Texts with a separator between them.
pub open spec fn joined(q: Seq<Seq<char>>, sep: Seq<char>) -> Seq<char>
    decreases q.len(),
{
    if q.len() == 0 {
        seq![]
    } else if q.len() == 1 {
        q[0]
    } else {
        joined(q.drop_last(), sep) + sep + q.last()
    }
}

/// Texts as `Debug` writes a list of them.
pub open spec fn listing(q: Seq<Seq<char>>) -> Seq<char> {
    "["@ + joined(Seq::new(q.len(), |i: int| quoted(q[i])), ", "@) + "]"@
}

/// Join texts.
pub fn join(v: &Vec<String>, sep: &str) -> (s: String)
    ensures
        s@ == joined(texts(v@), sep@),
{
    let mut s = String::new();
    let ghost q = texts(v@);
    let mut i: usize = 0;
    while i < v.len()
        invariant
            i <= v@.len(),
            q == texts(v@),
            s@ == joined(q.take(i as int), sep@),
        decreases v@.len() - i,
    {
        if i > 0 {
            s.append(sep);
        }
        s.append(v[i].as_str());
        proof {
            assert(q.take(i + 1).drop_last() =~= q.take(i as int));
            assert(q.take(i + 1).last() == q[i as int]);
            if i == 0 {
                assert(s@ =~= q[0]);
            }
        }
        i = i + 1;
    }
    proof {
        assert(q.take(v@.len() as int) =~= q);
    }
    s
}

/// Texts as a list.
pub fn list(v: &Vec<String>) -> (s: String)
    ensures
        s@ == listing(texts(v@)),
{
    let mut w: Vec<String> = Vec::new();
    let mut i: usize = 0;
    while i < v.len()
        invariant
            i <= v@.len(),
            w@.len() == i,
            forall|j: int| 0 <= j < i ==> #[trigger] w@[j]@ == quoted(v@[j]@),
        decreases v@.len() - i,
    {
        w.push(quote(v[i].as_str()));
        i = i + 1;
    }
    let mut s = String::from_str("[");
    s.append(join(&w, ", ").as_str());
    s.append("]");
    proof {
        let q = texts(v@);
        assert(texts(w@) =~= Seq::new(q.len(), |i: int| quoted(q[i])));
    }
    s
}

pub open spec fn is_digit(c: char) -> bool {
    '0' <= c <= '9'
}

/// The number that a row of digits writes.
pub open spec fn value_of(q: Seq<char>) -> int
    decreases q.len(),
{
    if q.len() == 0 {
        0
    } else {
        10 * value_of(q.drop_last()) + (q.last() as int - '0' as int)
    }
}

/// A text without a leading `+`.
pub open spec fn unsigned(q: Seq<char>) -> Seq<char> {
    if q.len() > 0 && q[0] == '+' {
        q.skip(1)
    } else {
        q
    }
}

pub open spec fn all_digits(q: Seq<char>) -> bool {
    q.len() > 0 && forall|i: int| 0 <= i < q.len() ==> is_digit(#[trigger] q[i])
}

/// The number a text is: digits only, after a `+` at most.
pub open spec fn parsed(q: Seq<char>) -> Option<int> {
    if all_digits(unsigned(q)) {
        Some(value_of(unsigned(q)))
    } else {
        None
    }
}

/// A number is not negative.
pub proof fn lemma_parsed(q: Seq<char>)
    ensures
        parsed(q) matches Some(n) ==> n >= 0,
{
    if all_digits(unsigned(q)) {
        lemma_value(unsigned(q));
    }
}

proof fn lemma_value(q: Seq<char>)
    requires
        forall|i: int| 0 <= i < q.len() ==> is_digit(#[trigger] q[i]),
    ensures
        value_of(q) >= 0,
    decreases q.len(),
{
    if q.len() > 0 {
        assert forall|i: int| 0 <= i < q.drop_last().len() implies is_digit(
            #[trigger] q.drop_last()[i],
        ) by {
            assert(q[i] == q.drop_last()[i]);
        }
        lemma_value(q.drop_last());
        assert(is_digit(q[q.len() - 1]));
    }
}

/// Read a number. One too large for the machine is none.
pub fn parse_number(s: &str) -> (r: Option<u64>)
    ensures
        match r {
            Some(n) => parsed(s@) == Some(n as int),
            None => parsed(s@) matches Some(n) ==> n > u64::MAX,
        },
{
    let len = s.unicode_len();
    let mut at: usize = 0;
    if len > 0 && s.get_char(0) == '+' {
        at = 1;
    }
    let ghost q = unsigned(s@);
    let from = at;
    if at == len {
        return None;
    }
    let mut n: u64 = 0;
    let mut big = false;
    while at < len
        invariant
            len == s@.len(),
            from <= at <= len,
            from <= 1,
            q == unsigned(s@),
            from == 1 <==> s@.len() > 0 && s@[0] == '+',
            q.len() == len - from,
            q.len() > 0,
            forall|i: int| 0 <= i < at - from ==> is_digit(#[trigger] q[i]),
            !big ==> n == value_of(q.take(at - from)),
            big ==> value_of(q.take(at - from)) > u64::MAX,
        decreases len - at,
    {
        let c = s.get_char(at);
        proof {
            assert(q[at - from] == c);
        }
        if c < '0' || c > '9' {
            proof {
                assert(!is_digit(q[at - from]));
            }
            return None;
        }
        let d = c as u32 - 48;
        proof {
            assert(q.take(at + 1 - from).drop_last() =~= q.take(at - from));
            assert(q.take(at + 1 - from).last() == c);
        }
        if !big {
            if n > u64::MAX / 10 || n * 10 > u64::MAX - d as u64 {
                big = true;
            } else {
                n = n * 10 + d as u64;
            }
        }
        at = at + 1;
    }
    proof {
        assert(q.take(q.len() as int) =~= q);
    }
    if big {
        None
    } else {
        Some(n)
    }
}

/// The first place from `i` on where `c` stands; behind the last character if it does not.
pub open spec fn place_of(q: Seq<char>, c: char, i: int) -> int
    decreases q.len() - i,
{
    if i >= q.len() || q[i] == c {
        i
    } else {
        place_of(q, c, i + 1)
    }
}

/// A place is not before where the search begins, nor far behind the end.
pub proof fn lemma_place_of(q: Seq<char>, c: char, i: int)
    requires
        0 <= i <= q.len(),
    ensures
        i <= place_of(q, c, i) <= q.len(),
    decreases q.len() - i,
{
    if i < q.len() && q[i] != c {
        lemma_place_of(q, c, i + 1);
    }
}

/// Find a character, from a place on.
pub fn find_from(s: &str, c: char, from: usize) -> (r: usize)
    requires
        from <= s@.len(),
    ensures
        r == place_of(s@, c, from as int),
        from <= r <= s@.len(),
{
    let n = s.unicode_len();
    let mut i: usize = from;
    while i < n && s.get_char(i) != c
        invariant
            n == s@.len(),
            from <= i <= n,
            place_of(s@, c, from as int) == place_of(s@, c, i as int),
        decreases n - i,
    {
        i = i + 1;
    }
    i
}

/// A part of a text.
pub fn part(s: &str, from: usize, to: usize) -> (r: String)
    requires
        from <= to <= s@.len(),
    ensures
        r@ == s@.subrange(from as int, to as int),
{
    s.substring_char(from, to).to_owned()
}

/// Without white space around it.
pub fn trim(s: &str) -> (r: String)
    ensures
        r@ == trimmed(s@),
{
    let len = s.unicode_len();
    let mut i: usize = 0;
    while i < len && white(s.get_char(i))
        invariant
            len == s@.len(),
            i <= len,
            white_from(s@, 0) == white_from(s@, i as int),
        decreases len - i,
    {
        i = i + 1;
    }
    let mut n: usize = len;
    while n > 0 && white(s.get_char(n - 1))
        invariant
            len == s@.len(),
            n <= len,
            white_to(s@, len as int) == white_to(s@, n as int),
        decreases n,
    {
        n = n - 1;
    }
    if i >= n {
        let r = String::new();
        proof {
            assert(r@ =~= seq![]);
        }
        r
    } else {
        part(s, i, n)
    }
}

/// The whole number a text is: digits only, after a sign at most.
pub open spec fn signed(q: Seq<char>) -> Option<int> {
    if q.len() > 0 && q[0] == '-' {
        if all_digits(q.skip(1)) {
            Some(-value_of(q.skip(1)))
        } else {
            None
        }
    } else {
        parsed(q)
    }
}

/// Read a whole number. One that the machine cannot hold is none.
pub fn parse_integer(s: &str) -> (r: Option<i64>)
    ensures
        match r {
            Some(n) => signed(s@) == Some(n as int),
            None => signed(s@) matches Some(n) ==> n > i64::MAX || n < i64::MIN,
        },
{
    let len = s.unicode_len();
    if len > 0 && s.get_char(0) == '-' {
        let t = part(s, 1, len);
        proof {
            assert(t@ =~= s@.skip(1));
        }
        if len == 1 || s.get_char(1) == '+' {
            proof {
                if len > 1 {
                    assert(!is_digit(t@[0]));
                }
            }
            return None;
        }
        proof {
            assert(unsigned(t@) == t@);
        }
        match parse_number(t.as_str()) {
            Some(n) => {
                if n < 0x8000_0000_0000_0000 {
                    Some(-(n as i64))
                } else if n == 0x8000_0000_0000_0000 {
                    Some(i64::MIN)
                } else {
                    None
                }
            },
            None => None,
        }
    } else {
        match parse_number(s) {
            Some(n) => {
                if n <= 0x7fff_ffff_ffff_ffff {
                    Some(n as i64)
                } else {
                    None
                }
            },
            None => None,
        }
    }
}

/// A whole number in words.
pub open spec fn integer(n: int) -> Seq<char> {
    if n < 0 {
        "-"@ + number(-n)
    } else {
        number(n)
    }
}

/// Write a whole number.
pub fn push_integer(s: &mut String, n: i64)
    ensures
        final(s)@ == old(s)@ + integer(n as int),
{
    let ghost was = s@;
    if n < 0 {
        s.append("-");
        let m: u64 = if n == i64::MIN {
            0x8000_0000_0000_0000
        } else {
            (-n) as u64
        };
        push_number(s, m);
        proof {
            assert(s@ =~= was + integer(n as int));
        }
    } else {
        push_number(s, n as u64);
    }
}

/// Write a whole number of any size.
pub fn push_wide(s: &mut String, n: i128)
    ensures
        final(s)@ == old(s)@ + integer(n as int),
{
    let ghost was = s@;
    if n < 0 {
        s.append("-");
        let m: u128 = (-(n + 1)) as u128 + 1;
        push_big(s, m);
        proof {
            assert(s@ =~= was + integer(n as int));
        }
    } else {
        push_big(s, n as u128);
    }
}

/// A number given in tenths, with its decimal.
pub open spec fn decimal(tenths: int) -> Seq<char> {
    number(tenths / 10) + "."@ + number(tenths % 10)
}

/// Write a number given in tenths.
pub fn push_decimal(s: &mut String, tenths: u128)
    ensures
        final(s)@ == old(s)@ + decimal(tenths as int),
{
    let ghost was = s@;
    push_big(s, tenths / 10);
    s.append(".");
    push_big(s, tenths % 10);
    proof {
        assert(s@ =~= was + decimal(tenths as int));
    }
}

} // verus!
