//! What a request asks for, read from its parameters.

use vstd::prelude::*;
use vstd::string::StrSliceExecFns;

verus! {

/// What a request for the dominant colors of a picture asks for.
#[derive(Debug)]
pub struct Request {
    pub number_of_clusters: u32,
    pub max_try_count: u32,
    pub file_name: String,
    pub file_buffer: Vec<u8>,
}

/// Whether `c` is one of the decimal digits `0` to `9`.
pub open spec fn is_digit(c: char) -> bool {
    '0' as u32 <= c as u32 <= '9' as u32
}

/// The number that the decimal digit `c` stands for.
pub open spec fn digit_value(c: char) -> nat {
    (c as u32 - '0' as u32) as nat
}

/// The number that the decimal digits `digits` spell.
pub open spec fn digits_value(digits: Seq<char>) -> nat
    decreases digits.len(),
{
    if digits.len() == 0 {
        0
    } else {
        digits_value(digits.drop_last()) * 10 + digit_value(digits.last())
    }
}

/// `text` without the plus sign that may stand before the digits.
pub open spec fn unsigned_part(text: Seq<char>) -> Seq<char> {
    if text.len() > 0 && text[0] == '+' {
        text.drop_first()
    } else {
        text
    }
}

/// The number that `text` spells: one or more decimal digits, with or
/// without a plus sign before them and nothing else around them, that stay
/// within `u32`.
pub open spec fn parsed_u32(text: Seq<char>) -> Option<u32> {
    let digits = unsigned_part(text);
    if digits.len() > 0 && (forall|i: int| 0 <= i < digits.len() ==> is_digit(#[trigger] digits[i]))
        && digits_value(digits) <= u32::MAX {
        Some(digits_value(digits) as u32)
    } else {
        None
    }
}

/// The text of the last of the `params` with the name `name`.
pub open spec fn field_text(params: Seq<(String, String)>, name: Seq<char>) -> Option<Seq<char>>
    decreases params.len(),
{
    if params.len() == 0 {
        None
    } else if params.last().0@ == name {
        Some(params.last().1@)
    } else {
        field_text(params.drop_last(), name)
    }
}

/// The number that the last of the `params` with the name `name` holds.
pub open spec fn field_value(params: Seq<(String, String)>, name: Seq<char>) -> Option<u32> {
    match field_text(params, name) {
        Some(text) => parsed_u32(text),
        None => None,
    }
}

proof fn lemma_digits_value_grows(digits: Seq<char>, i: int)
    requires
        0 <= i <= digits.len(),
    ensures
        digits_value(digits.take(i)) <= digits_value(digits),
    decreases digits.len() - i,
{
    if i < digits.len() {
        lemma_digits_value_grows(digits, i + 1);
        assert(digits.take(i + 1).drop_last() =~= digits.take(i));
    } else {
        assert(digits.take(i) =~= digits);
    }
}

/// The number that `text` spells, if it spells one.
pub fn parse_u32(text: &str) -> (value: Option<u32>)
    ensures
        value == parsed_u32(text@),
{
    let n: usize = text.unicode_len();
    if n == 0 {
        return None;
    }
    let start: usize = if text.get_char(0) == '+' {
        1
    } else {
        0
    };
    if start == n {
        return None;
    }
    let ghost digits = unsigned_part(text@);
    let mut acc: u64 = 0;
    let mut i: usize = start;
    assert(digits.take(0) =~= Seq::<char>::empty());
    while i < n
        invariant
            start <= i <= n,
            n == text@.len(),
            digits == unsigned_part(text@),
            digits.len() == n - start,
            forall|j: int| 0 <= j < digits.len() ==> digits[j] == text@[j + start],
            forall|j: int| 0 <= j < i - start ==> is_digit(#[trigger] digits[j]),
            acc == digits_value(digits.take(i - start)),
            acc <= u32::MAX,
        decreases n - i,
    {
        let c = text.get_char(i);
        let code: u32 = c as u32;
        if code < 48 || code > 57 {
            assert(!is_digit(digits[i - start]));
            return None;
        }
        proof {
            assert(digits.take(i - start + 1).drop_last() =~= digits.take(i - start));
            lemma_digits_value_grows(digits, i - start + 1);
        }
        acc = acc * 10 + (code - 48) as u64;
        if acc > u32::MAX as u64 {
            return None;
        }
        i += 1;
    }
    assert(digits.take(digits.len() as int) =~= digits);
    Some(acc as u32)
}

/// The number that the last of the `params` with the name `field_name`
/// holds, if there is such a parameter and it holds a number.
pub fn get_filed_value_u32(params: &Vec<(String, String)>, field_name: &str) -> (value: Option<u32>)
    ensures
        value == field_value(params@, field_name@),
{
    let name: String = field_name.to_owned();
    let mut i: usize = params.len();
    assert(params@.take(params.len() as int) =~= params@);
    while i > 0
        invariant
            i <= params.len(),
            name@ == field_name@,
            field_text(params@, field_name@) == field_text(params@.take(i as int), field_name@),
        decreases i,
    {
        assert(params@.take(i as int).drop_last() =~= params@.take(i - 1));
        if params[i - 1].0 == name {
            return parse_u32(params[i - 1].1.as_str());
        }
        i -= 1;
    }
    None
}

/// The number of clusters where a request names none.
pub fn get_number_of_clusters_default() -> (number: u32)
    ensures
        number == 4,
{
    4
}

/// The number of rounds where a request names none.
pub fn get_max_try_count_default() -> (number: u32)
    ensures
        number == 30,
{
    30
}

/// The number of clusters that the parameters ask for.
pub fn get_number_of_clusters(params: &Vec<(String, String)>) -> (number: Option<u32>)
    ensures
        number == field_value(params@, "number_of_clusters"@),
{
    get_filed_value_u32(params, "number_of_clusters")
}

/// The number of rounds that the parameters allow.
pub fn get_max_try_count(params: &Vec<(String, String)>) -> (number: Option<u32>)
    ensures
        number == field_value(params@, "max_try_count"@),
{
    get_filed_value_u32(params, "max_try_count")
}

/// The number that `value` holds, or `default` where it holds none.
pub open spec fn value_or(value: Option<u32>, default: u32) -> u32 {
    match value {
        Some(number) => number,
        None => default,
    }
}

impl Request {
    /// The request that the parameters and the uploaded file make: 4
    /// clusters and 30 rounds where the parameters give no number for them.
    /// Without a file there is no request.
    pub fn parse(params: &Vec<(String, String)>, image: Option<(String, Vec<u8>)>) -> (request: Result<
        Request,
        String,
    >)
        ensures
            match image {
                Some((name, buffer)) => request matches Ok(r) && r.number_of_clusters == value_or(
                    field_value(params@, "number_of_clusters"@),
                    4,
                ) && r.max_try_count == value_or(field_value(params@, "max_try_count"@), 30)
                    && r.file_name == name && r.file_buffer == buffer,
                None => request matches Err(message) && message@
                    == "Can't read image from request."@,
            },
    {
        let number_of_clusters = match get_number_of_clusters(params) {
            Some(number) => number,
            None => get_number_of_clusters_default(),
        };
        let max_try_count = match get_max_try_count(params) {
            Some(number) => number,
            None => get_max_try_count_default(),
        };
        match image {
            Some((name, buffer)) => Ok(
                Request { number_of_clusters, max_try_count, file_name: name, file_buffer: buffer },
            ),
            None => Err("Can't read image from request.".to_owned()),
        }
    }
}

} // verus!
