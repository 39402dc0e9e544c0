//! Decimal numbers and path components as text: what the cache file names,
//! the log addresses and the crash-log fields are made of.

use vstd::prelude::*;

verus! {

/// Whether `c` is one of the ten decimal digits.
pub open spec fn is_digit(c: char) -> bool {
    '0' <= c && c <= '9'
}

/// The value of a decimal digit.
pub open spec fn digit_value(c: char) -> nat {
    (c as nat - '0' as nat) as nat
}

/// The digit that stands for `d`, for `d` below ten.
pub open spec fn digit_char(d: nat) -> char {
    if d == 0 {
        '0'
    } else if d == 1 {
        '1'
    } else if d == 2 {
        '2'
    } else if d == 3 {
        '3'
    } else if d == 4 {
        '4'
    } else if d == 5 {
        '5'
    } else if d == 6 {
        '6'
    } else if d == 7 {
        '7'
    } else if d == 8 {
        '8'
    } else {
        '9'
    }
}

/// Whether every character of `s` is a decimal digit.
pub open spec fn all_digits(s: Seq<char>) -> bool {
    forall|i: int| 0 <= i < s.len() ==> is_digit(#[trigger] s[i])
}

/// The number that a run of decimal digits denotes, most significant first.
pub open spec fn digits_value(s: Seq<char>) -> nat
    decreases s.len(),
{
    if s.len() == 0 {
        0
    } else {
        digits_value(s.drop_last()) * 10 + digit_value(s.last())
    }
}

/// The digits of an unsigned number in text, after an optional plus sign.
pub open spec fn unsigned_digits(s: Seq<char>) -> Seq<char> {
    if s.len() > 0 && s[0] == '+' {
        s.skip(1)
    } else {
        s
    }
}

/// What a text denotes as an unsigned 64-bit number: an optional plus sign,
/// then at least one digit and nothing else, with a value that fits.
pub open spec fn parsed_u64(s: Seq<char>) -> Option<u64> {
    let digits = unsigned_digits(s);
    if digits.len() > 0 && all_digits(digits) && digits_value(digits) <= u64::MAX {
        Some(digits_value(digits) as u64)
    } else {
        None
    }
}

/// The decimal text of a number, without sign or leading zeros.
pub open spec fn decimal_text(n: nat) -> Seq<char>
    decreases n,
{
    if n < 10 {
        seq![digit_char(n)]
    } else {
        decimal_text(n / 10).push(digit_char(n % 10))
    }
}

/// The decimal text of a number that may be negative.
pub open spec fn signed_decimal_text(n: int) -> Seq<char> {
    if n < 0 {
        seq!['-'] + decimal_text((-n) as nat)
    } else {
        decimal_text(n as nat)
    }
}

/// The decimal text of a number, with a leading zero where it has one digit.
pub open spec fn two_digit_text(n: nat) -> Seq<char> {
    if n < 10 {
        seq!['0', digit_char(n)]
    } else {
        decimal_text(n)
    }
}

/// A longer run of digits does not denote less than its front part.
pub proof fn lemma_digits_value_grows(s: Seq<char>, k: int)
    requires
        0 <= k <= s.len(),
    ensures
        digits_value(s.take(k)) <= digits_value(s),
    decreases s.len(),
{
    if k == s.len() {
        assert(s.take(k) =~= s);
    } else {
        lemma_digits_value_grows(s.drop_last(), k);
        assert(s.drop_last().take(k) =~= s.take(k));
    }
}

/// The text of a number is made of digits and denotes that number.
pub proof fn lemma_decimal_text_value(n: nat)
    ensures
        decimal_text(n).len() > 0,
        all_digits(decimal_text(n)),
        digits_value(decimal_text(n)) == n,
        decimal_text(n)[0] != '+',
    decreases n,
{
    if n < 10 {
        let s = decimal_text(n);
        assert(s.drop_last() =~= Seq::<char>::empty());
        assert(digits_value(s.drop_last()) == 0);
    } else {
        lemma_decimal_text_value(n / 10);
        let front = decimal_text(n / 10);
        let s = decimal_text(n);
        assert(s.drop_last() =~= front);
        assert(s.last() == digit_char(n % 10));
        assert(s[0] == front[0]);
    }
}

/// Reading back the text of a number gives the number.
pub proof fn lemma_parse_decimal_text(n: u64)
    ensures
        parsed_u64(decimal_text(n as nat)) == Some(n),
{
    lemma_decimal_text_value(n as nat);
}

/// The value of one decimal digit, or nothing for any other character.
pub fn digit_of(c: char) -> (value: Option<u8>)
    ensures
        is_digit(c) <==> value.is_some(),
        value matches Some(d) ==> d as nat == digit_value(c) && d < 10,
{
    if '0' <= c && c <= '9' {
        Some(((c as u32) - ('0' as u32)) as u8)
    } else {
        None
    }
}

/// Reads an unsigned 64-bit number from text.
pub fn parse_u64(s: &str) -> (value: Option<u64>)
    ensures
        value == parsed_u64(s@),
{
    let len: usize = s.unicode_len();
    let start: usize = if len > 0 && s.get_char(0) == '+' {
        1
    } else {
        0
    };
    let ghost digits = unsigned_digits(s@);
    assert(digits =~= s@.skip(start as int));
    if start == len {
        return None;
    }
    let mut acc: u64 = 0;
    let mut i: usize = start;
    while i < len
        invariant
            start <= i <= len,
            len == s@.len(),
            digits == s@.skip(start as int),
            digits == unsigned_digits(s@),
            all_digits(digits.take(i - start)),
            acc as nat == digits_value(digits.take(i - start)),
        decreases len - i,
    {
        let c = s.get_char(i);
        let ghost next = digits.take(i - start + 1);
        proof {
            assert(next.drop_last() =~= digits.take(i - start));
            assert(next.last() == c);
            assert(digits_value(next) == acc as nat * 10 + digit_value(c));
        }
        match digit_of(c) {
            None => {
                assert(!is_digit(digits[i - start]));
                return None;
            },
            Some(d) => {
                if acc > (u64::MAX - d as u64) / 10 {
                    proof {
                        lemma_digits_value_grows(digits, i - start + 1);
                    }
                    return None;
                }
                acc = acc * 10 + d as u64;
                assert forall|j: int| 0 <= j < next.len() implies is_digit(#[trigger] next[j]) by {
                    if j < next.len() - 1 {
                        assert(next[j] == digits.take(i - start)[j]);
                    }
                }
            },
        }
        i += 1;
    }
    assert(digits.take(len - start) =~= digits);
    Some(acc)
}

/// The text of one decimal digit.
pub fn digit_text(d: u8) -> (text: &'static str)
    requires
        d < 10,
    ensures
        text@ == seq![digit_char(d as nat)],
{
    proof {
        reveal_strlit("0");
        reveal_strlit("1");
        reveal_strlit("2");
        reveal_strlit("3");
        reveal_strlit("4");
        reveal_strlit("5");
        reveal_strlit("6");
        reveal_strlit("7");
        reveal_strlit("8");
        reveal_strlit("9");
    }
    let text = if d == 0 {
        "0"
    } else if d == 1 {
        "1"
    } else if d == 2 {
        "2"
    } else if d == 3 {
        "3"
    } else if d == 4 {
        "4"
    } else if d == 5 {
        "5"
    } else if d == 6 {
        "6"
    } else if d == 7 {
        "7"
    } else if d == 8 {
        "8"
    } else {
        "9"
    };
    assert(text@ =~= seq![digit_char(d as nat)]);
    text
}

/// Appends the decimal text of `n` to `out`.
pub fn push_decimal(out: &mut String, n: u64)
    ensures
        final(out)@ == old(out)@ + decimal_text(n as nat),
    decreases n,
{
    if n >= 10 {
        push_decimal(out, n / 10);
    }
    out.append(digit_text((n % 10) as u8));
    assert(out@ =~= old(out)@ + decimal_text(n as nat));
}

/// Appends the decimal text of `n`, which may be negative, to `out`.
pub fn push_signed_decimal(out: &mut String, n: i32)
    ensures
        final(out)@ == old(out)@ + signed_decimal_text(n as int),
{
    if n < 0 {
        proof {
            reveal_strlit("-");
        }
        out.append("-");
        let magnitude: u64 = (-(n as i64)) as u64;
        push_decimal(out, magnitude);
        assert(out@ =~= old(out)@ + signed_decimal_text(n as int));
    } else {
        push_decimal(out, n as u64);
    }
}

/// Appends the decimal text of `n` to `out`, at least two digits wide.
pub fn push_two_digits(out: &mut String, n: u32)
    ensures
        final(out)@ == old(out)@ + two_digit_text(n as nat),
{
    if n < 10 {
        proof {
            reveal_strlit("0");
        }
        out.append("0");
        out.append(digit_text(n as u8));
        assert(out@ =~= old(out)@ + two_digit_text(n as nat));
    } else {
        push_decimal(out, n as u64);
    }
}

/// The views of a run of texts, in order.
pub open spec fn texts(items: Seq<String>) -> Seq<Seq<char>> {
    items.map_values(|item: String| item@)
}

/// Where the last component of a path starts: behind its last slash, or at
/// its beginning where it has none.
pub open spec fn final_component_start(path: Seq<char>) -> int
    decreases path.len(),
{
    if path.len() == 0 {
        0
    } else if path.last() == '/' {
        path.len() as int
    } else {
        final_component_start(path.drop_last())
    }
}

/// The last component of a path: what follows its last slash.
pub open spec fn final_component(path: Seq<char>) -> Seq<char> {
    path.skip(final_component_start(path))
}

/// How much of a path is left once the slashes at its end are dropped, and
/// with them each dot that stands alone behind a slash: `a/b/`, `a/b/.` and
/// `a//b//` are all left as `a//b` or `a/b`.
pub open spec fn trimmed_len(path: Seq<char>) -> int
    decreases path.len(),
{
    if path.len() == 0 {
        0
    } else if path.last() == '/' {
        trimmed_len(path.drop_last())
    } else if path.len() >= 2 && path.last() == '.' && path[path.len() - 2] == '/' {
        trimmed_len(path.drop_last())
    } else {
        path.len() as int
    }
}

/// The bare file name of a path, with `/` between its components: the last
/// component of what is left once the path is trimmed at its end, unless
/// that is empty or one of the two dot names of a directory.
pub open spec fn file_name_of(path: Seq<char>) -> Option<Seq<char>> {
    let name = final_component(path.take(trimmed_len(path)));
    if name.len() == 0 || is_dot_name(name) {
        None
    } else {
        Some(name)
    }
}

/// The last component starts inside the path, right behind a slash or at the
/// beginning, and holds no slash itself.
pub proof fn lemma_final_component(path: Seq<char>)
    ensures
        0 <= final_component_start(path) <= path.len(),
        final_component_start(path) > 0 ==> path[final_component_start(path) - 1] == '/',
        forall|i: int| final_component_start(path) <= i < path.len() ==> #[trigger] path[i] != '/',
    decreases path.len(),
{
    if path.len() > 0 && path.last() != '/' {
        let front = path.drop_last();
        lemma_final_component(front);
        assert forall|i: int| final_component_start(path) <= i < path.len() implies #[trigger] path[i]
            != '/' by {
            if i < front.len() {
                assert(path[i] == front[i]);
            }
        }
    }
}

/// Where the last component of the first `k` characters starts, by their
/// last character.
proof fn lemma_final_component_step(path: Seq<char>, k: int)
    requires
        0 < k <= path.len(),
    ensures
        path[k - 1] == '/' ==> final_component_start(path.take(k)) == k,
        path[k - 1] != '/' ==> final_component_start(path.take(k)) == final_component_start(
            path.take(k - 1),
        ),
{
    assert(path.take(k).drop_last() =~= path.take(k - 1));
    assert(path.take(k).last() == path[k - 1]);
}

/// Whether a path component is one of the two dot names of a directory.
pub open spec fn is_dot_name(name: Seq<char>) -> bool {
    name == seq!['.'] || name == seq!['.', '.']
}

/// Tells the two dot names from every other component.
fn dot_name(name: &str) -> (dots: bool)
    ensures
        dots == is_dot_name(name@),
{
    let size: usize = name.unicode_len();
    if size == 1 {
        let dots = name.get_char(0) == '.';
        assert(dots ==> name@ =~= seq!['.']);
        assert(!dots ==> name@[0] != seq!['.'][0]);
        assert(name@.len() != seq!['.', '.'].len());
        dots
    } else if size == 2 {
        let dots = name.get_char(0) == '.' && name.get_char(1) == '.';
        assert(dots ==> name@ =~= seq!['.', '.']);
        assert(!dots ==> name@[0] != seq!['.', '.'][0] || name@[1] != seq!['.', '.'][1]);
        assert(name@.len() != seq!['.'].len());
        dots
    } else {
        assert(name@.len() != seq!['.'].len());
        assert(name@.len() != seq!['.', '.'].len());
        false
    }
}

/// The characters of a text, one by one.
fn characters(text: &str) -> (chars: Vec<char>)
    ensures
        chars@ == text@,
{
    let mut chars: Vec<char> = Vec::new();
    assert(text@.take(0) =~= Seq::<char>::empty());
    for c in iter: text.chars()
        invariant
            iter.seq() == text@,
            chars@ == text@.take(iter.index()),
    {
        assert(text@.take(iter.index() + 1) =~= text@.take(iter.index()).push(c));
        chars.push(c);
    }
    assert(text@.take(chars.len() as int) =~= text@);
    chars
}

/// The bare file name of a path, if it has one.
pub fn file_name(path: &str) -> (name: Option<String>)
    ensures
        match name {
            Some(text) => file_name_of(path@) == Some(text@),
            None => file_name_of(path@).is_none(),
        },
{
    let chars = characters(path);
    let mut end: usize = chars.len();
    assert(path@.take(end as int) =~= path@);
    loop
        invariant
            end <= chars.len(),
            chars@ == path@,
            trimmed_len(path@) == trimmed_len(path@.take(end as int)),
        ensures
            trimmed_len(path@) == end,
        decreases end,
    {
        let ghost kept = path@.take(end as int);
        if end > 0 && chars[end - 1] == '/' {
            assert(kept.drop_last() =~= path@.take(end - 1));
            end -= 1;
        } else if end >= 2 && chars[end - 1] == '.' && chars[end - 2] == '/' {
            assert(kept.drop_last() =~= path@.take(end - 1));
            end -= 1;
        } else {
            break ;
        }
    }
    let ghost kept = path@.take(end as int);
    let mut start: usize = end;
    assert(kept.take(start as int) =~= kept);
    while start > 0 && chars[start - 1] != '/'
        invariant
            start <= end <= chars.len(),
            chars@ == path@,
            kept == path@.take(end as int),
            final_component_start(kept) == final_component_start(kept.take(start as int)),
        decreases start,
    {
        proof {
            lemma_final_component_step(kept, start as int);
        }
        start -= 1;
    }
    proof {
        if start > 0 {
            lemma_final_component_step(kept, start as int);
        } else {
            assert(kept.take(0) =~= Seq::<char>::empty());
        }
    }
    let name = path.substring_char(start, end);
    assert(name@ =~= final_component(kept));
    if start == end || dot_name(name) {
        None
    } else {
        Some(String::from_str(name))
    }
}

/// Two numbers with the same decimal text are the same number.
pub proof fn lemma_signed_decimal_text_injective(a: int, b: int)
    requires
        signed_decimal_text(a) == signed_decimal_text(b),
    ensures
        a == b,
{
    let minus = seq!['-'];
    if a < 0 {
        lemma_decimal_text_value((-a) as nat);
        assert(signed_decimal_text(a)[0] == '-');
        assert(signed_decimal_text(a).skip(1) =~= decimal_text((-a) as nat));
        if b < 0 {
            lemma_decimal_text_value((-b) as nat);
            assert(signed_decimal_text(b).skip(1) =~= decimal_text((-b) as nat));
        } else {
            lemma_decimal_text_value(b as nat);
            assert(is_digit(decimal_text(b as nat)[0]));
        }
    } else {
        lemma_decimal_text_value(a as nat);
        assert(is_digit(decimal_text(a as nat)[0]));
        if b < 0 {
            assert(signed_decimal_text(b)[0] == '-');
        } else {
            lemma_decimal_text_value(b as nat);
        }
    }
}

/// Texts that are equal between the same beginning and the same end are
/// equal.
pub proof fn lemma_same_middle(
    front: Seq<char>,
    first: Seq<char>,
    second: Seq<char>,
    back: Seq<char>,
)
    requires
        front + first + back == front + second + back,
    ensures
        first == second,
{
    let one = front + first + back;
    let other = front + second + back;
    assert(one.len() == front.len() + first.len() + back.len());
    assert(other.len() == front.len() + second.len() + back.len());
    assert(first.len() == second.len());
    assert forall|i: int| 0 <= i < first.len() implies first[i] == second[i] by {
        assert(one[front.len() + i] == first[i]);
        assert(other[front.len() + i] == second[i]);
    }
    assert(first =~= second);
}

} // verus!
