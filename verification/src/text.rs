//! Names and numbers as text: decimal notation, joining, prefixes and version suffixes.

use vstd::prelude::*;

verus! {

/// Whether `char::is_numeric` holds of `c`.
pub uninterp spec fn numeric(c: char) -> bool;

/// `char::is_numeric`: the result is a function of the character alone, and among the
/// ASCII characters exactly the ten digits are numeric. Which characters beyond ASCII
/// are numeric is left unsaid: Unicode lists them.
pub assume_specification[ char::is_numeric ](c: char) -> (r: bool)
    ensures
        r == numeric(c),
        (c as u32) < 128 ==> (r <==> 48 <= (c as u32) < 58),
;

/// What `{:?}` writes for a string that holds `s`.
pub uninterp spec fn quoted(s: Seq<char>) -> Seq<char>;

/// `format!` with `{:?}` on a string: the string between double quotes, with the
/// characters escaped that `char::escape_debug` escapes. The result is named and depends
/// on the string alone; the escapes themselves are left unsaid.
#[verifier::external_body]
pub(crate) fn quote(s: &String) -> (r: String)
    ensures
        r@ == quoted(s@),
{
    format!("{:?}", s)
}

/// The character of a decimal digit.
pub open spec fn digit(d: nat) -> char {
    (48 + d) as char
}

/// `n` in decimal notation, without leading zeros.
pub open spec fn decimal(n: nat) -> Seq<char>
    decreases n,
{
    if n < 10 {
        seq![digit(n)]
    } else {
        decimal(n / 10).push(digit(n % 10))
    }
}

/// `n` in decimal notation, with a minus sign where it is negative.
pub open spec fn signed_decimal(n: int) -> Seq<char> {
    if n < 0 {
        "-"@ + decimal((-n) as nat)
    } else {
        decimal(n as nat)
    }
}

/// The texts in `list`, with `sep` between each two.
pub open spec fn joined(list: Seq<Seq<char>>, sep: Seq<char>) -> Seq<char>
    decreases list.len(),
{
    if list.len() == 0 {
        Seq::empty()
    } else if list.len() == 1 {
        list[0]
    } else {
        joined(list.drop_last(), sep) + sep + list.last()
    }
}

/// The name of version `version` of the node `name`.
pub open spec fn versioned(name: Seq<char>, version: nat) -> Seq<char> {
    name + decimal(version)
}

/// `c` is numeric: one of the ten digits, or a numeric character beyond ASCII.
pub open spec fn is_number(c: char) -> bool {
    if (c as u32) < 128 {
        48 <= (c as u32) < 58
    } else {
        numeric(c)
    }
}

/// `name` without the numeric characters at its end.
pub open spec fn base_of(name: Seq<char>) -> Seq<char>
    decreases name.len(),
{
    if name.len() > 0 && is_number(name.last()) {
        base_of(name.drop_last())
    } else {
        name
    }
}

/// `name` is some version of the node `node`.
pub open spec fn is_version_of(name: Seq<char>, node: Seq<char>) -> bool {
    exists|v: nat| name == #[trigger] versioned(node, v)
}

/// `s` is a number in decimal notation, without leading zeros.
pub open spec fn is_decimal(s: Seq<char>) -> bool {
    &&& s.len() > 0
    &&& forall|i: int| 0 <= i < s.len() ==> 48 <= (#[trigger] s[i]) as int && (s[i] as int) < 58
    &&& s.len() > 1 ==> s[0] != digit(0)
}

/// Decimal notation consists of digits and has no leading zero.
pub proof fn lemma_decimal_is_decimal(n: nat)
    ensures
        is_decimal(decimal(n)),
        n > 0 ==> decimal(n)[0] != digit(0),
    decreases n,
{
    if n >= 10 {
        lemma_decimal_is_decimal(n / 10);
    }
}

/// Every such text is the decimal notation of a number.
pub proof fn lemma_is_decimal_of(s: Seq<char>) -> (n: nat)
    requires
        is_decimal(s),
    ensures
        decimal(n) == s,
        s[0] != digit(0) ==> n > 0,
    decreases s.len(),
{
    let d = (s.last() as int - 48) as nat;
    assert(48 <= s[s.len() - 1] as int);
    assert(digit(d) == s.last());
    if s.len() == 1 {
        assert(s =~= seq![digit(d)]);
        d
    } else {
        let rest = s.drop_last();
        assert forall|i: int| 0 <= i < rest.len() implies 48 <= (#[trigger] rest[i]) as int && (
        rest[i] as int) < 58 by {
            assert(rest[i] == s[i]);
        }
        let m = lemma_is_decimal_of(rest);
        let n = 10 * m + d;
        assert(n / 10 == m && n % 10 == d);
        assert(decimal(n) =~= s);
        n
    }
}

/// A name without numeric characters at its end, and any version of it, have that name as
/// their base.
pub proof fn lemma_base_of_version(name: Seq<char>, version: nat)
    ensures
        base_of(versioned(name, version)) == base_of(name),
{
    lemma_decimal_is_decimal(version);
    lemma_base_of_digits(name, decimal(version));
}

proof fn lemma_base_of_digits(name: Seq<char>, digits: Seq<char>)
    requires
        forall|i: int|
            0 <= i < digits.len() ==> 48 <= (#[trigger] digits[i]) as int && (digits[i] as int)
                < 58,
    ensures
        base_of(name + digits) == base_of(name),
    decreases digits.len(),
{
    if digits.len() == 0 {
        assert(name + digits =~= name);
    } else {
        let whole = name + digits;
        assert(whole.last() == digits[digits.len() - 1]);
        assert(whole.drop_last() =~= name + digits.drop_last());
        assert forall|i: int| 0 <= i < digits.drop_last().len() implies 48 <= (
        #[trigger] digits.drop_last()[i]) as int && (digits.drop_last()[i] as int) < 58 by {
            assert(digits.drop_last()[i] == digits[i]);
        }
        lemma_base_of_digits(name, digits.drop_last());
    }
}

/// The base of a name is its own base.
pub proof fn lemma_base_of_base(name: Seq<char>)
    ensures
        base_of(base_of(name)) == base_of(name),
    decreases name.len(),
{
    if name.len() > 0 && is_number(name.last()) {
        lemma_base_of_base(name.drop_last());
    }
}

fn digit_text(d: u64) -> (r: String)
    requires
        d < 10,
    ensures
        r@ == seq![digit(d as nat)],
{
    proof {
        reveal_strlit("0");
        reveal_strlit("1");
        reveal_strlit("2");
        reveal_strlit("3");
        reveal_strlit("4");
        reveal_strlit("5");
        reveal_strlit("6");
        reveal_strlit("7");
        reveal_strlit("8");
        reveal_strlit("9");
    }
    let s = match d {
        0 => "0",
        1 => "1",
        2 => "2",
        3 => "3",
        4 => "4",
        5 => "5",
        6 => "6",
        7 => "7",
        8 => "8",
        _ => "9",
    };
    assert(s@ =~= seq![digit(d as nat)]);
    s.to_string()
}

pub fn decimal_text(n: u64) -> (r: String)
    ensures
        r@ == decimal(n as nat),
    decreases n,
{
    if n < 10 {
        digit_text(n)
    } else {
        let mut r = decimal_text(n / 10);
        r.append(digit_text(n % 10).as_str());
        assert(r@ =~= decimal(n as nat));
        r
    }
}

pub fn signed_decimal_text(n: i32) -> (r: String)
    ensures
        r@ == signed_decimal(n as int),
{
    if n < 0 {
        let magnitude: i64 = -(n as i64);
        concat("-", decimal_text(magnitude as u64).as_str())
    } else {
        decimal_text(n as u64)
    }
}

pub fn concat(a: &str, b: &str) -> (r: String)
    ensures
        r@ == a@ + b@,
{
    let mut r = a.to_string();
    r.append(b);
    r
}

pub fn join(list: &Vec<String>, sep: &str) -> (r: String)
    ensures
        r@ == joined(list.deep_view(), sep@),
{
    let mut r = String::new();
    let mut i: usize = 0;
    assert(list.deep_view().take(0) =~= Seq::<Seq<char>>::empty());
    while i < list.len()
        invariant
            i <= list.len(),
            r@ == joined(list.deep_view().take(i as int), sep@),
        decreases list.len() - i,
    {
        let ghost l = list.deep_view();
        proof {
            assert(l.take(i + 1).drop_last() =~= l.take(i as int));
            assert(l.take(i + 1).last() == list[i as int]@);
        }
        if i > 0 {
            r.append(sep);
            r.append(list[i].as_str());
        } else {
            r.append(list[i].as_str());
            assert(r@ =~= list[i as int]@);
        }
        i = i + 1;
    }
    assert(list.deep_view().take(i as int) =~= list.deep_view());
    r
}

pub fn versioned_name(name: &String, version: u64) -> (r: String)
    ensures
        r@ == versioned(name@, version as nat),
{
    concat(name.as_str(), decimal_text(version).as_str())
}

/// Whether `name` is some version of the node `node`.
pub fn names_version_of(name: &String, node: &String) -> (r: bool)
    ensures
        r == is_version_of(name@, node@),
{
    let n: usize = node.as_str().unicode_len();
    let len: usize = name.as_str().unicode_len();
    if len <= n || !name.as_str().substring_char(0, n).to_string().eq(node) {
        proof {
            assert forall|v: nat| name@ != #[trigger] versioned(node@, v) by {
                lemma_decimal_is_decimal(v);
                if name@ == versioned(node@, v) {
                    assert(name@.subrange(0, n as int) =~= node@);
                }
            }
        }
        return false;
    }
    let ghost rest = name@.skip(n as int);
    assert(name@ =~= node@ + rest);
    proof {
        assert forall|v: nat| name@ == #[trigger] versioned(node@, v) implies rest == decimal(v)
            && is_decimal(rest) by {
            lemma_decimal_is_decimal(v);
            assert(versioned(node@, v).skip(n as int) =~= decimal(v));
        }
    }
    let mut i: usize = n;
    while i < len
        invariant
            n <= i <= len == name@.len(),
            rest == name@.skip(n as int),
            forall|v: nat| name@ == #[trigger] versioned(node@, v) ==> is_decimal(rest),
            forall|j: int|
                0 <= j < i - n ==> 48 <= (#[trigger] rest[j]) as int && (rest[j] as int) < 58,
        decreases len - i,
    {
        let c: u32 = name.as_str().get_char(i) as u32;
        assert(rest[i - n] as u32 == c);
        if c < 48 || c >= 58 {
            return false;
        }
        i = i + 1;
    }
    if len - n > 1 && name.as_str().get_char(n) as u32 == 48 {
        assert(rest[0] as u32 == 48);
        return false;
    }
    proof {
        if rest.len() > 1 {
            assert(rest[0] == name@[n as int]);
        }
        let v = lemma_is_decimal_of(rest);
        assert(name@ == versioned(node@, v));
    }
    true
}

pub fn base_name(name: &str) -> (r: String)
    ensures
        r@ == base_of(name@),
{
    let mut end: usize = name.unicode_len();
    assert(name@.take(end as int) =~= name@);
    while end > 0 && name.get_char(end - 1).is_numeric()
        invariant
            end <= name@.len(),
            base_of(name@) == base_of(name@.take(end as int)),
        ensures
            end <= name@.len(),
            base_of(name@) == name@.take(end as int),
        decreases end,
    {
        proof {
            assert(name@.take(end as int).drop_last() =~= name@.take(end - 1));
        }
        end = end - 1;
    }
    name.substring_char(0, end).to_string()
}

} // verus!
