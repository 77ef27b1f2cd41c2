//! Records of the generator import format: one record per line, fields
//! separated by ASCII whitespace, a leading id field that is discarded,
//! then the coordinates. Parsing a field as a number is left to the caller.
use vstd::prelude::*;

verus! {

/// ASCII whitespace: space, tab, line feed, form feed, carriage return.
pub open spec fn is_space(b: u8) -> bool {
    b == 32 || b == 9 || b == 10 || b == 12 || b == 13
}

/// Fields closed within the first `i` bytes, each as `(start, end)`, and
/// the start of a field still open after them.
pub open spec fn scan_fields(s: Seq<u8>, i: int) -> (Seq<(usize, usize)>, Option<usize>)
    decreases i,
{
    if i <= 0 {
        (seq![], None)
    } else {
        let (done, open) = scan_fields(s, i - 1);
        if is_space(s[i - 1]) {
            match open {
                Some(st) => (done.push((st, (i - 1) as usize)), None),
                None => (done, None),
            }
        } else {
            match open {
                Some(st) => (done, Some(st)),
                None => (done, Some((i - 1) as usize)),
            }
        }
    }
}

/// The fields of a line: its maximal runs of non-whitespace bytes.
pub open spec fn fields(s: Seq<u8>) -> Seq<(usize, usize)> {
    let (done, open) = scan_fields(s, s.len() as int);
    match open {
        Some(st) => done.push((st, s.len() as usize)),
        None => done,
    }
}

pub fn is_space_byte(b: u8) -> (r: bool)
    ensures
        r == is_space(b),
{
    b == 32 || b == 9 || b == 10 || b == 12 || b == 13
}

/// Byte ranges of the fields of a line, in order. Each is non-empty and
/// holds no whitespace.
pub fn split_fields(line: &Vec<u8>) -> (r: Vec<(usize, usize)>)
    ensures
        r@ == fields(line@),
        forall|k: int| 0 <= k < r.len() ==> (#[trigger] r@[k]).0 < r@[k].1 <= line.len(),
        forall|k: int, j: int|
            #![trigger r@[k], line@[j]]
            0 <= k < r.len() && r@[k].0 <= j < r@[k].1 ==> !is_space(line@[j]),
{
    let mut done: Vec<(usize, usize)> = Vec::new();
    let mut open: Option<usize> = None;
    let mut i: usize = 0;
    while i < line.len()
        invariant
            i <= line.len(),
            (done@, open) == scan_fields(line@, i as int),
            forall|k: int| 0 <= k < done.len() ==> (#[trigger] done@[k]).0 < done@[k].1 <= i,
            forall|k: int, j: int|
                #![trigger done@[k], line@[j]]
                0 <= k < done.len() && done@[k].0 <= j < done@[k].1 ==> !is_space(line@[j]),
            match open {
                Some(st) => st < i && forall|j: int| st <= j < i ==> !is_space(#[trigger] line@[j]),
                None => true,
            },
        decreases line.len() - i,
    {
        let ghost done0 = done@;
        if is_space_byte(line[i]) {
            match open {
                Some(st) => {
                    done.push((st, i));
                    open = None;
                },
                None => {},
            }
        } else {
            match open {
                Some(_) => {},
                None => {
                    open = Some(i);
                },
            }
        }
        proof {
            assert forall|k: int, j: int|
                #![trigger done@[k], line@[j]]
                0 <= k < done.len() && done@[k].0 <= j < done@[k].1 implies !is_space(line@[j]) by {
                if k < done0.len() {
                    assert(done@[k] == done0[k]);
                }
            }
            assert forall|k: int| 0 <= k < done.len() implies (#[trigger] done@[k]).0 < done@[k].1 <= i + 1 by {
                if k < done0.len() {
                    assert(done@[k] == done0[k]);
                }
            }
        }
        i = i + 1;
    }
    let ghost done0 = done@;
    match open {
        Some(st) => {
            done.push((st, line.len()));
        },
        None => {},
    }
    proof {
        assert forall|k: int, j: int|
            #![trigger done@[k], line@[j]]
            0 <= k < done.len() && done@[k].0 <= j < done@[k].1 implies !is_space(line@[j]) by {
            if k < done0.len() {
                assert(done@[k] == done0[k]);
            }
        }
        assert forall|k: int| 0 <= k < done.len() implies (#[trigger] done@[k]).0 < done@[k].1 <= line.len() by {
            if k < done0.len() {
                assert(done@[k] == done0[k]);
            }
        }
    }
    done
}

/// The coordinate fields of a record of dimension `d`: `None` for a blank
/// line, otherwise the fields after the id, at most `d` of them. A missing
/// or malformed coordinate is read as zero by the caller.
pub fn record_coordinates(line: &Vec<u8>, d: usize) -> (r: Option<Vec<(usize, usize)>>)
    ensures
        match r {
            None => fields(line@).len() == 0,
            Some(c) => {
                &&& fields(line@).len() > 0
                &&& c@ == fields(line@).subrange(
                    1,
                    if fields(line@).len() > d + 1 {
                        d + 1
                    } else {
                        fields(line@).len() as int
                    },
                )
            },
        },
{
    let f = split_fields(line);
    if f.len() == 0 {
        return None;
    }
    let mut c: Vec<(usize, usize)> = Vec::new();
    let mut k: usize = 1;
    while k < f.len() && k - 1 < d
        invariant
            1 <= k <= f.len(),
            k - 1 <= d,
            f@ == fields(line@),
            c@ == f@.subrange(1, k as int),
        decreases f.len() - k,
    {
        c.push(f[k]);
        proof {
            assert(f@.subrange(1, k + 1) == f@.subrange(1, k as int).push(f@[k as int]));
        }
        k = k + 1;
    }
    Some(c)
}

} // verus!
