use vstd::prelude::*;

verus! {

/// A line of input read as a move: the cell to reveal, or why it was refused.
#[derive(Debug, PartialEq, Eq)]
pub enum UserInput {
    BadInput(String),
    Coords(usize, usize),
}

/// What a parse comes to: `(row, column)` counted from 0, or the message.
pub open spec fn input_view(u: UserInput) -> Result<(usize, usize), Seq<char>> {
    match u {
        UserInput::BadInput(m) => Err(m@),
        UserInput::Coords(x, y) => Ok((x, y)),
    }
}

pub open spec fn space_count(s: Seq<char>) -> nat
    decreases s.len(),
{
    if s.len() == 0 {
        0
    } else {
        space_count(s.drop_last()) + if s.last() == ' ' { 1nat } else { 0nat }
    }
}

/// Index of the last space in `s`, or -1 where there is none.
pub open spec fn last_space(s: Seq<char>) -> int
    decreases s.len(),
{
    if s.len() == 0 {
        -1
    } else if s.last() == ' ' {
        s.len() - 1
    } else {
        last_space(s.drop_last())
    }
}

pub open spec fn is_digit(c: char) -> bool {
    '0' <= c <= '9'
}

/// The value of a string of decimal digits.
pub open spec fn digits_value(s: Seq<char>) -> int
    decreases s.len(),
{
    if s.len() == 0 {
        0
    } else {
        digits_value(s.drop_last()) * 10 + (s.last() as int - '0' as int)
    }
}

/// `s` without a leading `+`.
pub open spec fn unsigned_part(s: Seq<char>) -> Seq<char> {
    if s.len() > 0 && s[0] == '+' {
        s.drop_first()
    } else {
        s
    }
}

/// An unsigned decimal number: an optional `+`, then one or more digits,
/// whose value fits a `usize`.
pub open spec fn number_of(s: Seq<char>) -> Option<usize> {
    let d = unsigned_part(s);
    if d.len() > 0 && (forall|i: int| 0 <= i < d.len() ==> is_digit(#[trigger] d[i]))
        && digits_value(d) <= usize::MAX {
        Some(digits_value(d) as usize)
    } else {
        None
    }
}

/// `s` without one trailing line feed.
pub open spec fn without_newline(s: Seq<char>) -> Seq<char> {
    if s.len() > 0 && s.last() == '\n' {
        s.drop_last()
    } else {
        s
    }
}

/// Reads `"<column> <row>"`, both counted from 1 and at most `size`, into a
/// cell counted from 0; a line feed may end the input.
pub open spec fn parse_spec(s: Seq<char>, size: usize) -> Result<(usize, usize), Seq<char>> {
    if s.len() == 0 {
        Err("No input"@)
    } else if space_count(s) == 0 {
        Err("Not enough co-ords"@)
    } else if space_count(s) > 1 {
        Err("Too many co-ords"@)
    } else {
        let p = last_space(s);
        let first = s.subrange(0, p);
        let second = without_newline(s.subrange(p + 1, s.len() as int));
        match number_of(second) {
            None => Err("x value was not a valid number"@),
            Some(x) => match number_of(first) {
                None => Err("y value was not a valid number"@),
                Some(y) => if x > size || y > size || x == 0 || y == 0 {
                    Err("co-ord values must be within the size of the grid!"@)
                } else {
                    Ok(((x - 1) as usize, (y - 1) as usize))
                },
            },
        }
    }
}

proof fn lemma_digits_value_grows(s: Seq<char>, k: int)
    requires
        0 <= k <= s.len(),
        forall|i: int| 0 <= i < s.len() ==> is_digit(#[trigger] s[i]),
    ensures
        digits_value(s.subrange(0, k)) <= digits_value(s),
        0 <= digits_value(s),
    decreases s.len(),
{
    if s.len() > 0 {
        if k == s.len() {
            assert(s.subrange(0, k) =~= s);
            lemma_digits_value_grows(s.drop_last(), 0);
        } else {
            assert(s.drop_last().subrange(0, k) =~= s.subrange(0, k));
            lemma_digits_value_grows(s.drop_last(), k);
        }
    }
}

/// Reads the number written in `s[from..to]`.
fn parse_number(s: &str, from: usize, to: usize) -> (r: Option<usize>)
    requires
        from <= to <= s@.len(),
    ensures
        r == number_of(s@.subrange(from as int, to as int)),
{
    let ghost t = s@.subrange(from as int, to as int);
    let mut start = from;
    if from < to && s.get_char(from) == '+' {
        start = from + 1;
    }
    let ghost d = s@.subrange(start as int, to as int);
    assert(unsigned_part(t) =~= d);
    if start == to {
        return None;
    }
    let mut value: usize = 0;
    let mut k = start;
    while k < to
        invariant
            from <= start <= k <= to <= s@.len(),
            t == s@.subrange(from as int, to as int),
            d == s@.subrange(start as int, to as int),
            unsigned_part(t) == d,
            forall|i: int| start <= i < k ==> is_digit(#[trigger] s@[i]),
            value == digits_value(s@.subrange(start as int, k as int)),
        decreases to - k,
    {
        let c = s.get_char(k);
        if !('0' <= c && c <= '9') {
            assert(d[k - start] == c);
            return None;
        }
        let digit = (c as u32 - '0' as u32) as usize;
        assert(s@.subrange(start as int, k + 1).drop_last() =~= s@.subrange(start as int, k as int));
        match value.checked_mul(10) {
            None => {
                proof {
                    if forall|i: int| 0 <= i < d.len() ==> is_digit(#[trigger] d[i]) {
                        assert(d.subrange(0, k + 1 - start) =~= s@.subrange(start as int, k + 1));
                        lemma_digits_value_grows(d, k + 1 - start);
                    }
                }
                return None;
            },
            Some(tens) => match tens.checked_add(digit) {
                None => {
                    proof {
                        if forall|i: int| 0 <= i < d.len() ==> is_digit(#[trigger] d[i]) {
                            assert(d.subrange(0, k + 1 - start) =~= s@.subrange(start as int, k + 1));
                            lemma_digits_value_grows(d, k + 1 - start);
                        }
                    }
                    return None;
                },
                Some(v) => {
                    value = v;
                },
            },
        }
        k += 1;
    }
    assert(s@.subrange(start as int, k as int) =~= d);
    Some(value)
}

/// Reads a move typed as `"<column> <row>"`, both counted from 1, and gives
/// the cell `Coords(row, column)` counted from 0. Refuses empty input, a
/// count of numbers other than two, text that is no number, and values
/// outside `1..=size`.
pub fn parse_input(input_buffer: &String, size: usize) -> (r: UserInput)
    ensures
        input_view(r) == parse_spec(input_buffer@, size),
{
    let s = input_buffer.as_str();
    let len = s.unicode_len();
    if len == 0 {
        return UserInput::BadInput(String::from_str("No input"));
    }
    let mut spaces: usize = 0;
    let mut pos: usize = 0;
    let mut i: usize = 0;
    while i < len
        invariant
            len == s@.len(),
            s@ == input_buffer@,
            i <= len,
            spaces == space_count(s@.subrange(0, i as int)),
            spaces <= i,
            spaces > 0 ==> pos == last_space(s@.subrange(0, i as int)),
            spaces == 0 ==> last_space(s@.subrange(0, i as int)) == -1,
        decreases len - i,
    {
        assert(s@.subrange(0, i + 1).drop_last() =~= s@.subrange(0, i as int));
        if s.get_char(i) == ' ' {
            spaces += 1;
            pos = i;
        }
        i += 1;
    }
    assert(s@.subrange(0, len as int) =~= s@);
    if spaces == 0 {
        return UserInput::BadInput(String::from_str("Not enough co-ords"));
    }
    if spaces > 1 {
        return UserInput::BadInput(String::from_str("Too many co-ords"));
    }
    proof {
        lemma_last_space_bounds(s@);
    }
    let end = if s.get_char(len - 1) == '\n' && len - 1 > pos {
        len - 1
    } else {
        len
    };
    assert(without_newline(s@.subrange(pos + 1, len as int)) =~= s@.subrange(pos + 1, end as int));
    let input_x = parse_number(s, pos + 1, end);
    let input_y = parse_number(s, 0, pos);
    let user_x: usize;
    let user_y: usize;
    match input_x {
        Some(number) => {
            user_x = number;
        },
        None => {
            return UserInput::BadInput(String::from_str("x value was not a valid number"));
        },
    }
    match input_y {
        Some(number) => {
            user_y = number;
        },
        None => {
            return UserInput::BadInput(String::from_str("y value was not a valid number"));
        },
    }
    if user_x > size || user_y > size || user_x == 0 || user_y == 0 {
        return UserInput::BadInput(
            String::from_str("co-ord values must be within the size of the grid!"),
        );
    }
    UserInput::Coords(user_x - 1, user_y - 1)
}

proof fn lemma_last_space_bounds(s: Seq<char>)
    ensures
        -1 <= last_space(s) < s.len(),
        last_space(s) >= 0 ==> s[last_space(s)] == ' ',
    decreases s.len(),
{
    if s.len() > 0 && s.last() != ' ' {
        lemma_last_space_bounds(s.drop_last());
    }
}

} // verus!
