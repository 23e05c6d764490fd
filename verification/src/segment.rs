//! Segment file naming: segment id `n` lives in the database directory as a
//! six-digit zero-padded decimal with the `.cask` suffix, so that the names
//! sort lexicographically in id order.

use vstd::prelude::*;
use vstd::string::{StrSliceExecFns, StringExecFns};

verus! {

/// The decimal digit character for `d`.
pub open spec fn spec_digit_char(d: int) -> char
    recommends
        0 <= d <= 9,
{
    if d == 0 {
        '0'
    } else if d == 1 {
        '1'
    } else if d == 2 {
        '2'
    } else if d == 3 {
        '3'
    } else if d == 4 {
        '4'
    } else if d == 5 {
        '5'
    } else if d == 6 {
        '6'
    } else if d == 7 {
        '7'
    } else if d == 8 {
        '8'
    } else {
        '9'
    }
}

/// The file name of segment `id`: six zero-padded decimal digits and the
/// `.cask` suffix.
pub open spec fn spec_segment_file_name(id: u32) -> Seq<char>
    recommends
        id < 1000000,
{
    seq![
        spec_digit_char(id as int / 100000 % 10),
        spec_digit_char(id as int / 10000 % 10),
        spec_digit_char(id as int / 1000 % 10),
        spec_digit_char(id as int / 100 % 10),
        spec_digit_char(id as int / 10 % 10),
        spec_digit_char(id as int % 10),
        '.',
        'c',
        'a',
        's',
        'k',
    ]
}

/// The path of segment `id` under `dir`, with a `/` separator.
pub open spec fn spec_segment_file_path(dir: Seq<char>, id: u32) -> Seq<char>
    recommends
        id < 1000000,
{
    dir + seq!['/'] + spec_segment_file_name(id)
}

/// The one-character string for the digit `d`.
fn digit_str(d: u32) -> (r: &'static str)
    requires
        d < 10,
    ensures
        r@ =~= seq![spec_digit_char(d as int)],
{
    proof {
        reveal_strlit("0");
        reveal_strlit("1");
        reveal_strlit("2");
        reveal_strlit("3");
        reveal_strlit("4");
        reveal_strlit("5");
        reveal_strlit("6");
        reveal_strlit("7");
        reveal_strlit("8");
        reveal_strlit("9");
    }
    match d {
        0 => "0",
        1 => "1",
        2 => "2",
        3 => "3",
        4 => "4",
        5 => "5",
        6 => "6",
        7 => "7",
        8 => "8",
        _ => "9",
    }
}

/// The decimal value of a digit character, or 10 for any other character.
fn digit_of(c: char) -> (r: u32)
    ensures
        r <= 10,
        r < 10 ==> c == spec_digit_char(r as int),
        r == 10 ==> forall|d: int| 0 <= d <= 9 ==> c != spec_digit_char(d),
{
    match c {
        '0' => 0,
        '1' => 1,
        '2' => 2,
        '3' => 3,
        '4' => 4,
        '5' => 5,
        '6' => 6,
        '7' => 7,
        '8' => 8,
        '9' => 9,
        _ => 10,
    }
}

/// An id below 1000000 is the weighted sum of its six decimal digits.
proof fn lemma_digit_decompose(id: u32)
    requires
        id < 1000000,
    ensures
        id == (id / 100000 % 10) * 100000 + (id / 10000 % 10) * 10000 + (id / 1000 % 10) * 1000 + (
        id / 100 % 10) * 100 + (id / 10 % 10) * 10 + (id % 10),
{
    assert(id == (id / 100000 % 10) * 100000 + (id / 10000 % 10) * 10000 + (id / 1000 % 10) * 1000
        + (id / 100 % 10) * 100 + (id / 10 % 10) * 10 + (id % 10)) by (nonlinear_arith)
        requires
            id < 1000000,
    ;
}

/// Six digits with these values denote the id they spell.
proof fn lemma_digit_compose(d0: u32, d1: u32, d2: u32, d3: u32, d4: u32, d5: u32)
    requires
        d0 < 10,
        d1 < 10,
        d2 < 10,
        d3 < 10,
        d4 < 10,
        d5 < 10,
    ensures
        ({
            let id = d0 * 100000 + d1 * 10000 + d2 * 1000 + d3 * 100 + d4 * 10 + d5;
            &&& id < 1000000
            &&& id / 100000 % 10 == d0
            &&& id / 10000 % 10 == d1
            &&& id / 1000 % 10 == d2
            &&& id / 100 % 10 == d3
            &&& id / 10 % 10 == d4
            &&& id % 10 == d5
        }),
{
    let id = d0 * 100000 + d1 * 10000 + d2 * 1000 + d3 * 100 + d4 * 10 + d5;
    assert(id < 1000000 && id / 100000 % 10 == d0 && id / 10000 % 10 == d1 && id / 1000 % 10 == d2
        && id / 100 % 10 == d3 && id / 10 % 10 == d4 && id % 10 == d5) by (nonlinear_arith)
        requires
            d0 < 10,
            d1 < 10,
            d2 < 10,
            d3 < 10,
            d4 < 10,
            d5 < 10,
            id == d0 * 100000 + d1 * 10000 + d2 * 1000 + d3 * 100 + d4 * 10 + d5,
    ;
}

/// Parses a segment file name: exactly six decimal digits spelling a
/// positive id, then the `.cask` suffix. `None` exactly when no legal
/// segment id has this name, so recovery can refuse stray or
/// differently-padded files.
pub fn parse_segment_file_name(name: &str) -> (r: Option<u32>)
    ensures
        match r {
            Some(id) => 1 <= id < 1000000 && name@ == spec_segment_file_name(id),
            None => forall|id: u32|
                1 <= id < 1000000 ==> name@ != #[trigger] spec_segment_file_name(id),
        },
{
    let n = name.unicode_len();
    if n != 11 {
        return None;
    }
    let d0 = digit_of(name.get_char(0));
    let d1 = digit_of(name.get_char(1));
    let d2 = digit_of(name.get_char(2));
    let d3 = digit_of(name.get_char(3));
    let d4 = digit_of(name.get_char(4));
    let d5 = digit_of(name.get_char(5));
    if d0 == 10 || d1 == 10 || d2 == 10 || d3 == 10 || d4 == 10 || d5 == 10 {
        proof {
            assert forall|id: u32| 1 <= id < 1000000 implies name@
                != #[trigger] spec_segment_file_name(id) by {
                assert(0 <= id as int / 100000 % 10 <= 9);
                assert(0 <= id as int / 10000 % 10 <= 9);
                assert(0 <= id as int / 1000 % 10 <= 9);
                assert(0 <= id as int / 100 % 10 <= 9);
                assert(0 <= id as int / 10 % 10 <= 9);
                assert(0 <= id as int % 10 <= 9);
            }
        }
        return None;
    }
    if name.get_char(6) != '.' || name.get_char(7) != 'c' || name.get_char(8) != 'a'
        || name.get_char(9) != 's' || name.get_char(10) != 'k' {
        return None;
    }
    let id = d0 * 100000 + d1 * 10000 + d2 * 1000 + d3 * 100 + d4 * 10 + d5;
    proof {
        lemma_digit_compose(d0, d1, d2, d3, d4, d5);
    }
    if id == 0 {
        proof {
            assert forall|other: u32| 1 <= other < 1000000 implies name@
                != #[trigger] spec_segment_file_name(other) by {
                if name@ == spec_segment_file_name(other) {
                    lemma_digit_decompose(other);
                    assert(name@[0] == spec_digit_char(other as int / 100000 % 10));
                    assert(name@[1] == spec_digit_char(other as int / 10000 % 10));
                    assert(name@[2] == spec_digit_char(other as int / 1000 % 10));
                    assert(name@[3] == spec_digit_char(other as int / 100 % 10));
                    assert(name@[4] == spec_digit_char(other as int / 10 % 10));
                    assert(name@[5] == spec_digit_char(other as int % 10));
                    assert(other as int / 100000 % 10 == 0);
                    assert(other as int / 10000 % 10 == 0);
                    assert(other as int / 1000 % 10 == 0);
                    assert(other as int / 100 % 10 == 0);
                    assert(other as int / 10 % 10 == 0);
                    assert(other as int % 10 == 0);
                    assert(other == 0);
                }
            }
        }
        return None;
    }
    proof {
        assert(name@ =~= spec_segment_file_name(id));
    }
    Some(id)
}

/// The path under `dir_name` at which segment `file_id` is stored.
pub fn derive_filepath_from_fileid(dir_name: &str, file_id: u32) -> (r: String)
    requires
        file_id < 1000000,
    ensures
        r@ == spec_segment_file_path(dir_name@, file_id),
{
    let mut s = String::from_str(dir_name);
    s.append("/");
    s.append(digit_str(file_id / 100000 % 10));
    s.append(digit_str(file_id / 10000 % 10));
    s.append(digit_str(file_id / 1000 % 10));
    s.append(digit_str(file_id / 100 % 10));
    s.append(digit_str(file_id / 10 % 10));
    s.append(digit_str(file_id % 10));
    s.append(".cask");
    proof {
        reveal_strlit("/");
        reveal_strlit(".cask");
        assert(s@ =~= spec_segment_file_path(dir_name@, file_id));
    }
    s
}

} // verus!
