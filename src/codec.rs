//! Primitives of the binary format shared by replicas: variable-length
//! unsigned integers, length-prefixed byte strings, and self-describing
//! values, which a reader can step over without knowing their meaning.

use vstd::prelude::*;

verus! {

/// Tag of a value that holds nothing.
pub const TAG_UNDEFINED: u8 = 127;
/// Tag of a null value.
pub const TAG_NULL: u8 = 126;
/// Tag of a signed variable-length integer.
pub const TAG_INTEGER: u8 = 125;
/// Tag of a 32-bit float.
pub const TAG_FLOAT32: u8 = 124;
/// Tag of a 64-bit float.
pub const TAG_FLOAT64: u8 = 123;
/// Tag of a big-endian 64-bit integer.
pub const TAG_BIGINT: u8 = 122;
/// Tag of `false`.
pub const TAG_FALSE: u8 = 121;
/// Tag of `true`.
pub const TAG_TRUE: u8 = 120;
/// Tag of a string.
pub const TAG_STRING: u8 = 119;
/// Tag of a map from strings to values.
pub const TAG_MAP: u8 = 118;
/// Tag of an array of values.
pub const TAG_ARRAY: u8 = 117;
/// Tag of a byte buffer.
pub const TAG_BUFFER: u8 = 116;

/// The variable-length encoding of `v`: seven bits per byte, least significant first,
/// the high bit set on every byte but the last.
pub open spec fn varuint_bytes(v: nat) -> Seq<u8>
    decreases v,
{
    if v < 128 {
        seq![v as u8]
    } else {
        seq![(v % 128 + 128) as u8] + varuint_bytes(v / 128)
    }
}

/// A byte string preceded by its length.
pub open spec fn raw_bytes(s: Seq<u8>) -> Seq<u8> {
    varuint_bytes(s.len()) + s
}

/// Reads a variable-length unsigned integer at `pos`: its value and the position after it.
/// Fails at the end of input and on values above `u64::MAX`.
pub open spec fn read_varuint(b: Seq<u8>, pos: int) -> Option<(nat, int)>
    decreases b.len() - pos,
{
    if pos < 0 || pos >= b.len() {
        None
    } else if b[pos] < 128 {
        Some((b[pos] as nat, pos + 1))
    } else {
        match read_varuint(b, pos + 1) {
            Some((r, p)) => {
                let v = (b[pos] - 128) + 128 * r;
                if v <= u64::MAX {
                    Some((v as nat, p))
                } else {
                    None
                }
            },
            None => None,
        }
    }
}

/// Reads a length-prefixed byte string at `pos`: its bytes and the position after it.
pub open spec fn read_raw(b: Seq<u8>, pos: int) -> Option<(Seq<u8>, int)> {
    match read_varuint(b, pos) {
        Some((n, p)) => if p + n <= b.len() {
            Some((b.subrange(p, p + n), p + n))
        } else {
            None
        },
        None => None,
    }
}

/// The position after a signed variable-length integer that starts at `pos`.
pub open spec fn varint_end(b: Seq<u8>, pos: int) -> Option<int>
    decreases b.len() - pos,
{
    if pos < 0 || pos >= b.len() {
        None
    } else if b[pos] < 128 {
        Some(pos + 1)
    } else {
        varint_end(b, pos + 1)
    }
}

/// The position after the self-describing value that starts at `pos`.
pub open spec fn any_end(b: Seq<u8>, pos: int) -> Option<int>
    decreases b.len() - pos, 0nat,
{
    if pos < 0 || pos >= b.len() {
        None
    } else {
        let t = b[pos];
        if t == TAG_UNDEFINED || t == TAG_NULL || t == TAG_FALSE || t == TAG_TRUE {
            Some(pos + 1)
        } else if t == TAG_INTEGER {
            varint_end(b, pos + 1)
        } else if t == TAG_FLOAT32 {
            if pos + 5 <= b.len() {
                Some(pos + 5)
            } else {
                None
            }
        } else if t == TAG_FLOAT64 || t == TAG_BIGINT {
            if pos + 9 <= b.len() {
                Some(pos + 9)
            } else {
                None
            }
        } else if t == TAG_STRING || t == TAG_BUFFER {
            match read_raw(b, pos + 1) {
                Some((_, e)) => Some(e),
                None => None,
            }
        } else if t == TAG_MAP || t == TAG_ARRAY {
            match read_varuint(b, pos + 1) {
                Some((n, p)) => if pos < p <= b.len() {
                    entries_end(b, p, n, t == TAG_MAP)
                } else {
                    None
                },
                None => None,
            }
        } else {
            None
        }
    }
}

/// The position after `n` values (each preceded by a string key when `keyed`) that start at `pos`.
pub open spec fn entries_end(b: Seq<u8>, pos: int, n: nat, keyed: bool) -> Option<int>
    decreases b.len() - pos, 1nat, n,
{
    if pos < 0 || pos > b.len() {
        None
    } else if n == 0 {
        Some(pos)
    } else {
        let vpos = if keyed {
            match read_raw(b, pos) {
                Some((_, e)) => e,
                None => -1,
            }
        } else {
            pos
        };
        if vpos < pos {
            None
        } else {
            match any_end(b, vpos) {
                Some(e) => if pos < e <= b.len() {
                    entries_end(b, e, (n - 1) as nat, keyed)
                } else {
                    None
                },
                None => None,
            }
        }
    }
}

/// Appends the variable-length encoding of `v`.
pub fn write_varuint(out: &mut Vec<u8>, v: u64)
    ensures
        final(out)@ == old(out)@ + varuint_bytes(v as nat),
    decreases v,
{
    if v < 128 {
        out.push(v as u8);
    } else {
        out.push((v % 128 + 128) as u8);
        write_varuint(out, v / 128);
        proof {
            let x = seq![(v % 128 + 128) as u8];
            assert(old(out)@ + varuint_bytes(v as nat) =~= old(out)@ + x + varuint_bytes(
                (v / 128) as nat,
            ));
        }
    }
}

/// Appends every byte of `b`.
pub fn write_all(out: &mut Vec<u8>, b: &[u8])
    ensures
        final(out)@ == old(out)@ + b@,
{
    let mut i: usize = 0;
    while i < b.len()
        invariant
            i <= b@.len(),
            out@ == old(out)@ + b@.subrange(0, i as int),
        decreases b.len() - i,
    {
        out.push(b[i]);
        i = i + 1;
        assert(out@ =~= old(out)@ + b@.subrange(0, i as int));
    }
    assert(b@.subrange(0, b@.len() as int) =~= b@);
}

/// Appends `b` preceded by its length.
pub fn write_raw(out: &mut Vec<u8>, b: &[u8])
    ensures
        final(out)@ == old(out)@ + raw_bytes(b@),
{
    write_varuint(out, b.len() as u64);
    write_all(out, b);
    assert(out@ =~= old(out)@ + raw_bytes(b@));
}

/// Reads a variable-length unsigned integer at `pos`.
pub fn read_varuint_at(b: &[u8], pos: usize) -> (r: Option<(u64, usize)>)
    ensures
        r is None <==> read_varuint(b@, pos as int) is None,
        r matches Some((v, p)) ==> read_varuint(b@, pos as int) == Some((v as nat, p as int)),
    decreases b.len() - pos,
{
    if pos >= b.len() {
        return None;
    }
    let x = b[pos];
    if x < 128 {
        return Some((x as u64, pos + 1));
    }
    match read_varuint_at(b, pos + 1) {
        Some((r, p)) => {
            let low = (x - 128) as u64;
            if r <= (u64::MAX - low) / 128 {
                proof {
                    assert(low + 128 * r <= u64::MAX) by (nonlinear_arith)
                        requires
                            r <= (u64::MAX - low) / 128,
                            low <= 127,
                    ;
                }
                Some((low + 128 * r, p))
            } else {
                proof {
                    assert(low + 128 * r > u64::MAX) by (nonlinear_arith)
                        requires
                            r > (u64::MAX - low) / 128,
                            low <= 127,
                    ;
                }
                None
            }
        },
        None => None,
    }
}

/// Lemma: a value read back at `pos` ends after `pos` and within the input.
pub proof fn lemma_read_varuint_bounds(b: Seq<u8>, pos: int)
    ensures
        read_varuint(b, pos) matches Some((v, p)) ==> pos < p <= b.len() && v <= u64::MAX,
    decreases b.len() - pos,
{
    if 0 <= pos < b.len() && b[pos] >= 128 {
        lemma_read_varuint_bounds(b, pos + 1);
    }
}

/// Reads a length-prefixed byte string at `pos`: the bounds of its bytes.
pub fn read_raw_at(b: &[u8], pos: usize) -> (r: Option<(usize, usize)>)
    ensures
        r is None <==> read_raw(b@, pos as int) is None,
        r matches Some((s, e)) ==> s <= e <= b@.len() && read_raw(b@, pos as int) == Some(
            (b@.subrange(s as int, e as int), e as int),
        ),
{
    proof {
        lemma_read_varuint_bounds(b@, pos as int);
    }
    match read_varuint_at(b, pos) {
        Some((n, p)) => {
            if n as usize <= b.len() - p && n <= usize::MAX as u64 {
                Some((p, p + n as usize))
            } else {
                None
            }
        },
        None => None,
    }
}

fn varint_end_at(b: &[u8], pos: usize) -> (r: Option<usize>)
    ensures
        r is None <==> varint_end(b@, pos as int) is None,
        r matches Some(e) ==> varint_end(b@, pos as int) == Some(e as int) && e <= b@.len(),
    decreases b.len() - pos,
{
    if pos >= b.len() {
        None
    } else if b[pos] < 128 {
        Some(pos + 1)
    } else {
        varint_end_at(b, pos + 1)
    }
}

/// The position after the self-describing value that starts at `pos`.
pub fn any_end_at(b: &[u8], pos: usize) -> (r: Option<usize>)
    ensures
        r is None <==> any_end(b@, pos as int) is None,
        r matches Some(e) ==> any_end(b@, pos as int) == Some(e as int) && e <= b@.len(),
    decreases b@.len() - pos, 0nat,
{
    if pos >= b.len() {
        return None;
    }
    let t = b[pos];
    if t == TAG_UNDEFINED || t == TAG_NULL || t == TAG_FALSE || t == TAG_TRUE {
        Some(pos + 1)
    } else if t == TAG_INTEGER {
        varint_end_at(b, pos + 1)
    } else if t == TAG_FLOAT32 {
        if b.len() - pos >= 5 {
            Some(pos + 5)
        } else {
            None
        }
    } else if t == TAG_FLOAT64 || t == TAG_BIGINT {
        if b.len() - pos >= 9 {
            Some(pos + 9)
        } else {
            None
        }
    } else if t == TAG_STRING || t == TAG_BUFFER {
        match read_raw_at(b, pos + 1) {
            Some((_, e)) => Some(e),
            None => None,
        }
    } else if t == TAG_MAP || t == TAG_ARRAY {
        proof {
            lemma_read_varuint_bounds(b@, pos + 1);
        }
        match read_varuint_at(b, pos + 1) {
            Some((n, p)) => entries_end_at(b, p, n, t == TAG_MAP),
            None => None,
        }
    } else {
        None
    }
}

/// The position after `n` values (each preceded by a string key when `keyed`) that start at `pos`.
pub fn entries_end_at(b: &[u8], pos: usize, n: u64, keyed: bool) -> (r: Option<usize>)
    requires
        pos <= b@.len(),
    ensures
        r is None <==> entries_end(b@, pos as int, n as nat, keyed) is None,
        r matches Some(e) ==> entries_end(b@, pos as int, n as nat, keyed) == Some(e as int) && e
            <= b@.len(),
    decreases b@.len() - pos, 1nat, n,
{
    if n == 0 {
        return Some(pos);
    }
    let vpos = if keyed {
        match read_raw_at(b, pos) {
            Some((_, e)) => e,
            None => {
                return None;
            },
        }
    } else {
        pos
    };
    proof {
        if keyed {
            lemma_read_varuint_bounds(b@, pos as int);
        }
    }
    match any_end_at(b, vpos) {
        Some(e) => {
            if pos < e {
                entries_end_at(b, e, n - 1, keyed)
            } else {
                None
            }
        },
        None => None,
    }
}

} // verus!
