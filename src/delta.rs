use vstd::prelude::*;

use crate::pack_data::{read_size_rest, size_rest};

verus! {

/// The size a copy instruction stands for when it gives none.
pub const DEFAULT_COPY_SIZE: u64 = 0x10000;

/// A size at the start of a delta: little-endian groups of seven bits.
pub open spec fn delta_size(d: Seq<u8>, i: int) -> Option<(nat, int)> {
    size_rest(d, i, 0, 1)
}

/// The byte at `j` when `present`, else zero; and where reading goes on.
pub open spec fn opt_byte(d: Seq<u8>, j: int, present: bool) -> Option<(nat, int)> {
    if !present {
        Some((0, j))
    } else if 0 <= j < d.len() {
        Some((d[j] as nat, j + 1))
    } else {
        None
    }
}

/// The offset of a copy instruction whose opcode is `c` and whose arguments start at `j`, and
/// where its size starts: the low four bits of `c` say which offset bytes follow, least
/// significant first.
pub open spec fn copy_offset(d: Seq<u8>, j: int, c: u8) -> Option<(nat, int)> {
    match opt_byte(d, j, c & 0x01 != 0) {
        None => None,
        Some((o0, j0)) => match opt_byte(d, j0, c & 0x02 != 0) {
            None => None,
            Some((o1, j1)) => match opt_byte(d, j1, c & 0x04 != 0) {
                None => None,
                Some((o2, j2)) => match opt_byte(d, j2, c & 0x08 != 0) {
                    None => None,
                    Some((o3, j3)) => Some((o0 + o1 * 0x100 + o2 * 0x1_0000 + o3 * 0x100_0000, j3)),
                },
            },
        },
    }
}

/// The size of a copy instruction whose opcode is `c`, read from `j` on, and where the next
/// instruction starts: bits four to six of `c` say which size bytes follow; a size of zero
/// stands for 64 KiB.
pub open spec fn copy_size(d: Seq<u8>, j: int, c: u8) -> Option<(nat, int)> {
    match opt_byte(d, j, c & 0x10 != 0) {
        None => None,
        Some((s0, j0)) => match opt_byte(d, j0, c & 0x20 != 0) {
            None => None,
            Some((s1, j1)) => match opt_byte(d, j1, c & 0x40 != 0) {
                None => None,
                Some((s2, j2)) => {
                    let size = s0 + s1 * 0x100 + s2 * 0x1_0000;
                    Some((if size == 0 { DEFAULT_COPY_SIZE as nat } else { size }, j2))
                },
            },
        },
    }
}

/// The offset and size of a copy instruction, and where the next instruction starts.
pub open spec fn copy_args(d: Seq<u8>, j: int, c: u8) -> Option<(nat, nat, int)> {
    match copy_offset(d, j, c) {
        None => None,
        Some((off, k)) => match copy_size(d, k, c) {
            None => None,
            Some((size, next)) => Some((off, size, next)),
        },
    }
}

/// The result of running the instructions of `d` from `i` on, against `base`, after `out` was produced.
pub open spec fn run_instructions(base: Seq<u8>, d: Seq<u8>, i: int, out: Seq<u8>) -> Option<Seq<u8>>
    decreases d.len() - i,
{
    if i < 0 || i >= d.len() {
        Some(out)
    } else {
        let c = d[i];
        if c >= 128 {
            match copy_args(d, i + 1, c) {
                None => None,
                Some((off, size, next)) => if off + size > base.len() || next <= i {
                    None
                } else {
                    run_instructions(base, d, next, out + base.subrange(off as int, (off + size) as int))
                },
            }
        } else if c == 0 {
            None
        } else if i + 1 + c > d.len() {
            None
        } else {
            run_instructions(base, d, i + 1 + c, out + d.subrange(i + 1, i + 1 + c))
        }
    }
}

/// The object that delta `d` describes against `base`: the delta opens with the base's size and
/// the result's size, and its instructions either copy a range of the base or insert literal bytes.
pub open spec fn apply_spec(base: Seq<u8>, d: Seq<u8>) -> Option<Seq<u8>> {
    match delta_size(d, 0) {
        None => None,
        Some((base_size, i1)) => match delta_size(d, i1) {
            None => None,
            Some((result_size, i2)) => if base_size != base.len() {
                None
            } else {
                match run_instructions(base, d, i2, seq![]) {
                    Some(out) if out.len() == result_size => Some(out),
                    _ => None,
                }
            },
        },
    }
}

fn read_opt_byte(d: &[u8], j: usize, present: bool) -> (r: Option<(u64, usize)>)
    ensures
        match r {
            None => opt_byte(d@, j as int, present) is None,
            Some((v, e)) => opt_byte(d@, j as int, present) == Some((v as nat, e as int)) && v < 256 && j <= e
                && e <= j + 1,
        },
{
    if !present {
        Some((0, j))
    } else if j < d.len() {
        Some((d[j] as u64, j + 1))
    } else {
        None
    }
}

fn read_copy_offset(d: &[u8], j: usize, c: u8) -> (r: Option<(u64, usize)>)
    ensures
        match r {
            None => copy_offset(d@, j as int, c) is None,
            Some((off, e)) => copy_offset(d@, j as int, c) == Some((off as nat, e as int)) && off < 0x1_0000_0000
                && j <= e <= j + 4,
        },
{
    let (o0, j0) = match read_opt_byte(d, j, c & 0x01 != 0) {
        None => return None,
        Some(x) => x,
    };
    let (o1, j1) = match read_opt_byte(d, j0, c & 0x02 != 0) {
        None => return None,
        Some(x) => x,
    };
    let (o2, j2) = match read_opt_byte(d, j1, c & 0x04 != 0) {
        None => return None,
        Some(x) => x,
    };
    let (o3, j3) = match read_opt_byte(d, j2, c & 0x08 != 0) {
        None => return None,
        Some(x) => x,
    };
    Some((o0 + o1 * 0x100 + o2 * 0x1_0000 + o3 * 0x100_0000, j3))
}

fn read_copy_size(d: &[u8], j: usize, c: u8) -> (r: Option<(u64, usize)>)
    ensures
        match r {
            None => copy_size(d@, j as int, c) is None,
            Some((size, e)) => copy_size(d@, j as int, c) == Some((size as nat, e as int)) && size <= 0x100_0000
                && j <= e <= j + 3,
        },
{
    let (s0, j0) = match read_opt_byte(d, j, c & 0x10 != 0) {
        None => return None,
        Some(x) => x,
    };
    let (s1, j1) = match read_opt_byte(d, j0, c & 0x20 != 0) {
        None => return None,
        Some(x) => x,
    };
    let (s2, j2) = match read_opt_byte(d, j1, c & 0x40 != 0) {
        None => return None,
        Some(x) => x,
    };
    let size = s0 + s1 * 0x100 + s2 * 0x1_0000;
    Some((if size == 0 { DEFAULT_COPY_SIZE } else { size }, j2))
}

fn read_copy_args(d: &[u8], j: usize, c: u8) -> (r: Option<(u64, u64, usize)>)
    ensures
        match r {
            None => copy_args(d@, j as int, c) is None,
            Some((off, size, e)) => copy_args(d@, j as int, c) == Some((off as nat, size as nat, e as int))
                && off < 0x1_0000_0000 && size <= 0x100_0000 && j <= e,
        },
{
    let (off, k) = match read_copy_offset(d, j, c) {
        None => return None,
        Some(x) => x,
    };
    match read_copy_size(d, k, c) {
        None => None,
        Some((size, next)) => Some((off, size, next)),
    }
}

/// Apply the delta `d` to `base`, or `None` when the delta is malformed or does not fit the base.
pub fn apply_delta(base: &[u8], d: &[u8]) -> (r: Option<Vec<u8>>)
    ensures
        match r {
            None => apply_spec(base@, d@) is None,
            Some(out) => apply_spec(base@, d@) == Some(out@),
        },
{
    let (base_size, i1) = match read_size_rest(d, 0, 0, 1) {
        None => return None,
        Some(x) => x,
    };
    let (result_size, i2) = match read_size_rest(d, i1, 0, 1) {
        None => return None,
        Some(x) => x,
    };
    if base_size != base.len() as u64 {
        return None;
    }
    let mut out: Vec<u8> = Vec::new();
    let mut i = i2;
    let n = d.len();
    assert(out@ =~= seq![]);
    while i < n
        invariant
            n == d@.len(),
            delta_size(d@, 0) == Some((base_size as nat, i1 as int)),
            delta_size(d@, i1 as int) == Some((result_size as nat, i2 as int)),
            base_size == base@.len(),
            run_instructions(base@, d@, i as int, out@) == run_instructions(base@, d@, i2 as int, seq![]),
        decreases n - i,
    {
        let c = d[i];
        if c >= 128 {
            let (off, size, next) = match read_copy_args(d, i + 1, c) {
                None => {
                    assert(run_instructions(base@, d@, i as int, out@) is None);
                    return None;
                },
                Some(x) => x,
            };
            if off + size > base.len() as u64 || next <= i {
                assert(run_instructions(base@, d@, i as int, out@) is None);
                return None;
            }
            let piece = vstd::slice::slice_subrange(base, off as usize, (off + size) as usize);
            crate::bytes::push_all(&mut out, piece);
            i = next;
        } else if c == 0 {
            return None;
        } else {
            if n - (i + 1) < c as usize {
                return None;
            }
            let piece = vstd::slice::slice_subrange(d, i + 1, i + 1 + c as usize);
            crate::bytes::push_all(&mut out, piece);
            i = i + 1 + c as usize;
        }
    }
    if out.len() as u64 != result_size {
        return None;
    }
    Some(out)
}

} // verus!
