use vstd::prelude::*;
use crate::text::{chars_of, split, string_of, split_by, Sep};

verus! {

/// A student record.
#[derive(Debug)]
pub struct Student {
    pub name: String,
    pub phone: String,
    pub age: u32,
}

/// Why a text is not a `u32`, as std's `IntErrorKind` names the cases that arise.
#[derive(Debug, PartialEq, Eq, Structural)]
pub enum IntErrorKind {
    Empty,
    InvalidDigit,
    PosOverflow,
}

/// Reading decimal digits from position `i` on, with `acc` read so far: the first
/// character that is not a digit, or the first digit that takes the value past
/// `u32::MAX`, ends the reading with an error.
pub open spec fn read_digits(ds: Seq<char>, i: int, acc: nat) -> Result<u32, IntErrorKind>
    decreases ds.len() - i,
{
    if i >= ds.len() {
        Ok(acc as u32)
    } else if !('0' <= ds[i] <= '9') {
        Err(IntErrorKind::InvalidDigit)
    } else if acc * 10 + (ds[i] as u32 - '0' as u32) > u32::MAX {
        Err(IntErrorKind::PosOverflow)
    } else {
        read_digits(ds, i + 1, (acc * 10 + (ds[i] as u32 - '0' as u32)) as nat)
    }
}

/// What std's `str::parse::<u32>` gives: an optional `+`, then one or more decimal
/// digits whose value fits in `u32`.
pub open spec fn parse_u32_spec(s: Seq<char>) -> Result<u32, IntErrorKind> {
    if s.len() == 0 {
        Err(IntErrorKind::Empty)
    } else if (s[0] == '+' || s[0] == '-') && s.len() == 1 {
        Err(IntErrorKind::InvalidDigit)
    } else if s[0] == '+' {
        read_digits(s, 1, 0)
    } else {
        read_digits(s, 0, 0)
    }
}

/// The `u32` written in `s`, or why it is not one.
pub fn parse_u32(s: &[char]) -> (r: Result<u32, IntErrorKind>)
    ensures
        r == parse_u32_spec(s@),
{
    if s.len() == 0 {
        return Err(IntErrorKind::Empty);
    }
    if (s[0] == '+' || s[0] == '-') && s.len() == 1 {
        return Err(IntErrorKind::InvalidDigit);
    }
    let mut i: usize = if s[0] == '+' {
        1
    } else {
        0
    };
    let ghost start = i as int;
    let mut acc: u32 = 0;
    while i < s.len()
        invariant
            i <= s@.len(),
            read_digits(s@, start, 0) == read_digits(s@, i as int, acc as nat),
            parse_u32_spec(s@) == read_digits(s@, start, 0),
        decreases s@.len() - i,
    {
        let c = s[i];
        if !('0' <= c && c <= '9') {
            return Err(IntErrorKind::InvalidDigit);
        }
        let d = c as u32 - '0' as u32;
        if acc > (u32::MAX - d) / 10 {
            assert(acc * 10 + d > u32::MAX) by (nonlinear_arith)
                requires
                    acc > (u32::MAX - d) / 10,
                    d <= 9,
            ;
            return Err(IntErrorKind::PosOverflow);
        }
        assert(acc * 10 + d <= u32::MAX) by (nonlinear_arith)
            requires
                acc <= (u32::MAX - d) / 10,
                d <= 9,
        ;
        acc = acc * 10 + d;
        i = i + 1;
    }
    Ok(acc)
}

/// What one line of the student list holds.
#[derive(Debug)]
pub enum StudentLine {
    /// Three comma-separated fields whose last is an age.
    Record(Student),
    /// Three fields, but the age is not a `u32`.
    BadAge(IntErrorKind),
    /// Not exactly three comma-separated fields.
    InvalidFormat,
}

/// Reads a line `name,phone,age`.
pub fn parse_student_line(line: &str) -> (r: StudentLine)
    ensures
        ({
            let parts = split_by(line@, Sep::Char(','));
            if parts.len() == 3 {
                match parse_u32_spec(parts[2]) {
                    Ok(age) => r matches StudentLine::Record(s) && s.name@ == parts[0]
                        && s.phone@ == parts[1] && s.age == age,
                    Err(k) => r == StudentLine::BadAge(k),
                }
            } else {
                r is InvalidFormat
            }
        }),
{
    let cs = chars_of(line);
    let parts = split(&cs, Sep::Char(','));
    if parts.len() == 3 {
        match parse_u32(&parts[2]) {
            Ok(age) => StudentLine::Record(
                Student { name: string_of(&parts[0]), phone: string_of(&parts[1]), age },
            ),
            Err(k) => StudentLine::BadAge(k),
        }
    } else {
        StudentLine::InvalidFormat
    }
}

/// The position of the oldest student: the last of those with the greatest age (as
/// `Iterator::max_by_key` picks it); `None` for an empty list.
pub fn oldest(students: &[Student]) -> (r: Option<usize>)
    ensures
        students@.len() == 0 <==> r is None,
        r matches Some(i) ==> i < students@.len() && (forall|j: int|
            0 <= j < students@.len() ==> students@[j].age <= students@[i as int].age) && (
        forall|j: int| i < j < students@.len() ==> students@[j].age < students@[i as int].age),
{
    if students.len() == 0 {
        return None;
    }
    let mut best: usize = 0;
    let mut i: usize = 1;
    while i < students.len()
        invariant
            1 <= i <= students@.len(),
            best < i,
            forall|j: int| 0 <= j < i ==> students@[j].age <= students@[best as int].age,
            forall|j: int| best < j < i ==> students@[j].age < students@[best as int].age,
        decreases students@.len() - i,
    {
        if students[i].age >= students[best].age {
            best = i;
        }
        i = i + 1;
    }
    Some(best)
}

/// The position of the youngest student: the first of those with the least age (as
/// `Iterator::min_by_key` picks it); `None` for an empty list.
pub fn youngest(students: &[Student]) -> (r: Option<usize>)
    ensures
        students@.len() == 0 <==> r is None,
        r matches Some(i) ==> i < students@.len() && (forall|j: int|
            0 <= j < students@.len() ==> students@[j].age >= students@[i as int].age) && (
        forall|j: int| 0 <= j < i ==> students@[j].age > students@[i as int].age),
{
    if students.len() == 0 {
        return None;
    }
    let mut best: usize = 0;
    let mut i: usize = 1;
    while i < students.len()
        invariant
            1 <= i <= students@.len(),
            best < i,
            forall|j: int| 0 <= j < i ==> students@[j].age >= students@[best as int].age,
            forall|j: int| 0 <= j < best ==> students@[j].age > students@[best as int].age,
        decreases students@.len() - i,
    {
        if students[i].age < students[best].age {
            best = i;
        }
        i = i + 1;
    }
    Some(best)
}

} // verus!
