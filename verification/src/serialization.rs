//! The snapshot wire format, in fixed little-endian byte order: the observed
//! moment, then the number of cells, then each cell's serial number, its
//! value's type identifier, and the value the snapshot observes for it. Any
//! two runs that reach the same moment with the same history write the same
//! bytes, and a steward rebuilt from them answers as the snapshot did.

use vstd::prelude::*;
use crate::api::ExtendedTime;
use crate::api::ValidSince;
use crate::ids::DeterministicRandomId;
use crate::bouncy::Motion;
use crate::bouncy::Globals;
use crate::simple_full::Steward;
use crate::simple_full::DataTimelineCell;
use crate::simple_full::KernelError;
use crate::simple_timeline::SimpleTimeline;
use crate::simple_timeline::value_at;
use crate::simple_timeline::entry_at;
use crate::simple_timeline::history_sorted;

verus! {

/// The stable type identifier of a ball-trajectory cell value, split in two
/// words.
pub const MOTION_TYPE_ID_LOW: u64 = 0xd711cc7240c71607;

/// The high word of the same identifier.
pub const MOTION_TYPE_ID_HIGH: u64 = 0x08c4b60ad5d0ed08;

/// The `n` little-endian bytes of `x`.
pub open spec fn le_bytes(x: int, n: nat) -> Seq<u8>
    decreases n,
{
    if n == 0 {
        Seq::empty()
    } else {
        seq![(x % 256) as u8].add(le_bytes(x / 256, (n - 1) as nat))
    }
}

/// The number the first `n` little-endian bytes of `s` hold.
pub open spec fn le_value(s: Seq<u8>, n: nat) -> int
    decreases n,
{
    if n == 0 || s.len() == 0 {
        0
    } else {
        s[0] + 256 * le_value(s.subrange(1, s.len() as int), (n - 1) as nat)
    }
}

/// A number below `256^n` survives the trip through its `n` bytes.
pub proof fn lemma_le_roundtrip(x: int, n: nat)
    requires
        0 <= x,
        x < pow256(n),
    ensures
        le_bytes(x, n).len() == n,
        le_value(le_bytes(x, n), n) == x,
    decreases n,
{
    if n > 0 {
        vstd::arithmetic::div_mod::lemma_fundamental_div_mod(x, 256);
        vstd::arithmetic::div_mod::lemma_mod_bound(x, 256);
        assert(x / 256 < pow256((n - 1) as nat)) by (nonlinear_arith)
            requires
                x < 256 * pow256((n - 1) as nat),
                x == 256 * (x / 256) + x % 256,
                0 <= x % 256 < 256,
                x >= 0,
                pow256((n - 1) as nat) >= 1,
        ;
        assert(x / 256 >= 0) by (nonlinear_arith)
            requires
                x >= 0,
                x == 256 * (x / 256) + x % 256,
                0 <= x % 256 < 256,
        ;
        lemma_le_roundtrip(x / 256, (n - 1) as nat);
        let b = le_bytes(x, n);
        assert(b[0] == (x % 256) as u8);
        assert(b.subrange(1, b.len() as int) =~= le_bytes(x / 256, (n - 1) as nat));
    }
}

/// Two hundred fifty-six to the `n`.
pub open spec fn pow256(n: nat) -> int
    decreases n,
{
    if n == 0 {
        1
    } else {
        256 * pow256((n - 1) as nat)
    }
}

/// The byte widths used here, as powers.
pub proof fn lemma_pow256_values()
    ensures
        pow256(4) == 0x1_0000_0000,
        pow256(8) == 0x1_0000_0000_0000_0000,
    decreases 0int,
{
    reveal_with_fuel(pow256, 9);
}

/// Powers of 256 grow with the exponent.
pub proof fn lemma_pow256_mono(a: nat, b: nat)
    requires
        a <= b,
    ensures
        pow256(a) <= pow256(b),
    decreases b,
{
    lemma_pow256_pos(a);
    if a < b {
        lemma_pow256_mono(a, (b - 1) as nat);
        lemma_pow256_pos((b - 1) as nat);
    }
}

/// Powers of 256 are at least one.
pub proof fn lemma_pow256_pos(n: nat)
    ensures
        pow256(n) >= 1,
    decreases n,
{
    if n > 0 {
        lemma_pow256_pos((n - 1) as nat);
    }
}

/// Byte strings have the width they were asked for.
pub proof fn lemma_le_bytes_len(x: int, n: nat)
    ensures
        le_bytes(x, n).len() == n,
    decreases n,
{
    if n > 0 {
        lemma_le_bytes_len(x / 256, (n - 1) as nat);
    }
}

/// Two numbers in range with the same bytes are the same number.
pub proof fn lemma_le_inj(x: int, y: int, n: nat)
    requires
        0 <= x < pow256(n),
        0 <= y < pow256(n),
        le_bytes(x, n) == le_bytes(y, n),
    ensures
        x == y,
{
    lemma_le_roundtrip(x, n);
    lemma_le_roundtrip(y, n);
}

/// Every encoded cell takes at least twenty-five bytes.
pub proof fn lemma_cells_bytes_min(values: Seq<Option<Motion>>, c: int)
    requires
        0 <= c <= values.len(),
    ensures
        spec_cells_bytes(values, c).len() >= 25 * (values.len() - c),
    decreases values.len() - c,
{
    if c < values.len() {
        lemma_cells_bytes_min(values, c + 1);
        lemma_le_bytes_len(c, 8);
        lemma_le_bytes_len(MOTION_TYPE_ID_LOW as int, 8);
        lemma_le_bytes_len(MOTION_TYPE_ID_HIGH as int, 8);
        match values[c] {
            Option::None => {},
            Option::Some(m) => {
                lemma_le_bytes_len(offset64(m.position), 8);
                lemma_le_bytes_len(offset64(m.velocity), 8);
                lemma_le_bytes_len(offset64(m.origin), 8);
            },
        }
    }
}

/// The lengths of the five header fields and of one encoded cell.
pub proof fn lemma_header_lens(t: ExtendedTime, values: Seq<Option<Motion>>)
    ensures
        spec_snapshot_bytes(t, values).len() == 36 + spec_cells_bytes(values, 0).len(),
{
    lemma_le_bytes_len(offset64(t.base), 8);
    lemma_le_bytes_len(t.iteration as int, 4);
    lemma_le_bytes_len(t.id.data0 as int, 8);
    lemma_le_bytes_len(t.id.data1 as int, 8);
    lemma_le_bytes_len(values.len() as int, 8);
}

/// An `i64` carried on the line as the offset from the smallest value.
pub open spec fn offset64(x: i64) -> int {
    x - i64::MIN
}

/// The byte form of one observed cell value: a presence tag, then the three
/// trajectory fields.
pub open spec fn spec_value_bytes(v: Option<Motion>) -> Seq<u8> {
    match v {
        Option::None => seq![0u8],
        Option::Some(m) => seq![1u8].add(le_bytes(offset64(m.position), 8)).add(
            le_bytes(offset64(m.velocity), 8),
        ).add(le_bytes(offset64(m.origin), 8)),
    }
}

/// The byte form of the cells from index `c` on.
pub open spec fn spec_cells_bytes(values: Seq<Option<Motion>>, c: int) -> Seq<u8>
    decreases values.len() - c,
{
    if c < 0 || c >= values.len() {
        Seq::empty()
    } else {
        le_bytes(c, 8).add(le_bytes(MOTION_TYPE_ID_LOW as int, 8)).add(
            le_bytes(MOTION_TYPE_ID_HIGH as int, 8),
        ).add(spec_value_bytes(values[c])).add(spec_cells_bytes(values, c + 1))
    }
}

/// The byte form of a whole snapshot: the moment, the cell count, then every
/// cell in order.
pub open spec fn spec_snapshot_bytes(t: ExtendedTime, values: Seq<Option<Motion>>) -> Seq<u8> {
    le_bytes(offset64(t.base), 8).add(le_bytes(t.iteration as int, 4)).add(
        le_bytes(t.id.data0 as int, 8),
    ).add(le_bytes(t.id.data1 as int, 8)).add(le_bytes(values.len() as int, 8)).add(
        spec_cells_bytes(values, 0),
    )
}

/// Appends the eight little-endian bytes of an `i64`, carried as its offset
/// from the smallest value.
fn push_i64(out: &mut Vec<u8>, x: i64)
    ensures
        final(out)@ == old(out)@.add(le_bytes(offset64(x), 8)),
{
    let wide: i128 = (x as i128) - (i64::MIN as i128);
    proof {
        lemma_le_small(wide as int, 8);
    }
    push_le(out, wide, 8);
}

/// Appends the `n` little-endian bytes of `x`.
fn push_le(out: &mut Vec<u8>, x: i128, n: usize)
    requires
        0 <= x,
        x < pow256(n as nat),
        n <= 16,
    ensures
        final(out)@ == old(out)@.add(le_bytes(x as int, n as nat)),
{
    let mut rest: i128 = x;
    let mut i: usize = 0;
    while i < n
        invariant
            i <= n,
            n <= 16,
            0 <= rest,
            rest < pow256((n - i) as nat),
            old(out)@.add(le_bytes(x as int, n as nat)) == out@.add(
                le_bytes(rest as int, (n - i) as nat),
            ),
        decreases n - i,
    {
        let ghost before = out@;
        let ghost prev = rest as int;
        proof {
            vstd::arithmetic::div_mod::lemma_fundamental_div_mod(rest as int, 256);
            vstd::arithmetic::div_mod::lemma_mod_bound(rest as int, 256);
            lemma_pow256_pos((n - i - 1) as nat);
            assert(rest / 256 < pow256((n - i - 1) as nat) && rest / 256 >= 0)
                by (nonlinear_arith)
                requires
                    rest < 256 * pow256((n - i - 1) as nat),
                    rest as int == 256 * (rest as int / 256) + rest as int % 256,
                    0 <= rest as int % 256 < 256,
                    rest >= 0,
                    pow256((n - i - 1) as nat) >= 1,
            ;
        }
        let byte: u8 = (rest % 256) as u8;
        out.push(byte);
        let next = rest / 256;
        proof {
            assert(le_bytes(prev, (n - i) as nat) == seq![byte].add(
                le_bytes(next as int, (n - i - 1) as nat),
            ));
            assert(out@.add(le_bytes(next as int, (n - i - 1) as nat)) =~= before.add(
                le_bytes(prev, (n - i) as nat),
            ));
        }
        rest = next;
        i = i + 1;
    }
    proof {
        assert(le_bytes(rest as int, 0) =~= Seq::<u8>::empty());
        assert(out@.add(Seq::<u8>::empty()) =~= out@);
        assert(old(out)@.add(le_bytes(x as int, n as nat)) =~= out@);
    }
}

/// The bytes a snapshot of the given moment and observed values writes.
#[verifier::rlimit(100)]
pub fn encode_snapshot(t: &ExtendedTime, values: &Vec<Option<Motion>>) -> (r: Vec<u8>)
    ensures
        r@ == spec_snapshot_bytes(*t, values@),
{
    let mut out: Vec<u8> = Vec::new();
    let count = values.len();
    proof {
        lemma_le_small(t.iteration as int, 4);
        lemma_le_small(t.id.data0 as int, 8);
        lemma_le_small(t.id.data1 as int, 8);
        lemma_le_small(count as int, 8);
    }
    push_i64(&mut out, t.base);
    push_le(&mut out, t.iteration as i128, 4);
    push_le(&mut out, t.id.data0 as i128, 8);
    push_le(&mut out, t.id.data1 as i128, 8);
    push_le(&mut out, count as i128, 8);
    let mut c: usize = 0;
    while c < values.len()
        invariant
            c <= values@.len(),
            out@.add(spec_cells_bytes(values@, c as int)) == spec_snapshot_bytes(*t, values@),
        decreases values@.len() - c,
    {
        let ghost before = out@;
        proof {
            lemma_le_small(c as int, 8);
            lemma_le_small(MOTION_TYPE_ID_LOW as int, 8);
            lemma_le_small(MOTION_TYPE_ID_HIGH as int, 8);
        }
        push_le(&mut out, c as i128, 8);
        push_le(&mut out, MOTION_TYPE_ID_LOW as i128, 8);
        push_le(&mut out, MOTION_TYPE_ID_HIGH as i128, 8);
        match &values[c] {
            Option::None => {
                out.push(0u8);
                proof {
                    assert(out@ =~= before.add(le_bytes(c as int, 8)).add(
                        le_bytes(MOTION_TYPE_ID_LOW as int, 8),
                    ).add(le_bytes(MOTION_TYPE_ID_HIGH as int, 8)).add(seq![0u8]));
                }
            },
            Option::Some(m) => {
                out.push(1u8);
                let mm = *m;
                push_i64(&mut out, mm.position);
                push_i64(&mut out, mm.velocity);
                push_i64(&mut out, mm.origin);
                proof {
                    assert(out@ =~= before.add(le_bytes(c as int, 8)).add(
                        le_bytes(MOTION_TYPE_ID_LOW as int, 8),
                    ).add(le_bytes(MOTION_TYPE_ID_HIGH as int, 8)).add(
                        spec_value_bytes(values@[c as int]),
                    ));
                }
            },
        }
        proof {
            assert(spec_cells_bytes(values@, c as int) == le_bytes(c as int, 8).add(
                le_bytes(MOTION_TYPE_ID_LOW as int, 8),
            ).add(le_bytes(MOTION_TYPE_ID_HIGH as int, 8)).add(
                spec_value_bytes(values@[c as int]),
            ).add(spec_cells_bytes(values@, c as int + 1)));
            assert(out@.add(spec_cells_bytes(values@, c as int + 1)) =~= before.add(
                spec_cells_bytes(values@, c as int),
            ));
        }
        c = c + 1;
    }
    proof {
        assert(spec_cells_bytes(values@, values@.len() as int) =~= Seq::<u8>::empty());
        assert(out@ =~= out@.add(Seq::<u8>::empty()));
        assert(out@ =~= spec_snapshot_bytes(*t, values@));
    }
    out
}

/// Bytes reproduce the number they hold: encoding the value read from `n`
/// bytes gives those bytes back.
pub proof fn lemma_le_reconstruct(s: Seq<u8>, n: nat)
    requires
        s.len() >= n,
    ensures
        0 <= le_value(s, n) < pow256(n),
        le_bytes(le_value(s, n), n) == s.take(n as int),
    decreases n,
{
    if n == 0 {
        assert(le_bytes(0, 0) =~= s.take(0));
        lemma_pow256_pos(0);
    } else {
        let rest = s.subrange(1, s.len() as int);
        lemma_le_reconstruct(rest, (n - 1) as nat);
        let v = le_value(s, n);
        let vr = le_value(rest, (n - 1) as nat);
        assert(v == s[0] + 256 * vr);
        assert(0 <= v < pow256(n)) by (nonlinear_arith)
            requires
                v == s[0] + 256 * vr,
                0 <= s[0] < 256,
                0 <= vr < pow256((n - 1) as nat),
                pow256(n) == 256 * pow256((n - 1) as nat),
        ;
        assert(v % 256 == s[0] && v / 256 == vr) by (nonlinear_arith)
            requires
                v == s[0] + 256 * vr,
                0 <= s[0] < 256,
                0 <= vr,
        ;
        assert(le_bytes(v, n) == seq![(v % 256) as u8].add(le_bytes(vr, (n - 1) as nat)));
        assert(le_bytes(v, n) =~= s.take(n as int));
    }
}

/// The cell bytes of a complete list, accumulated from its end.
pub open spec fn cells_prefix_bytes(values: Seq<Option<Motion>>) -> Seq<u8>
    decreases values.len(),
{
    if values.len() == 0 {
        Seq::empty()
    } else {
        cells_prefix_bytes(values.drop_last()).add(
            le_bytes(values.len() - 1, 8).add(le_bytes(MOTION_TYPE_ID_LOW as int, 8)).add(
                le_bytes(MOTION_TYPE_ID_HIGH as int, 8),
            ).add(spec_value_bytes(values.last())),
        )
    }
}

/// The two readings of the cell section agree: front-to-back from an index,
/// and back-to-front over a prefix.
pub proof fn lemma_cells_decomp(values: Seq<Option<Motion>>, c: int)
    requires
        0 <= c <= values.len(),
    ensures
        spec_cells_bytes(values, 0) == cells_prefix_bytes(values.take(c)).add(
            spec_cells_bytes(values, c),
        ),
    decreases c,
{
    if c == 0 {
        assert(values.take(0) =~= Seq::<Option<Motion>>::empty());
        assert(cells_prefix_bytes(values.take(0)) =~= Seq::<u8>::empty());
        assert(Seq::<u8>::empty().add(spec_cells_bytes(values, 0)) =~= spec_cells_bytes(
            values,
            0,
        ));
    } else {
        lemma_cells_decomp(values, c - 1);
        let p = values.take(c);
        assert(p.drop_last() =~= values.take(c - 1));
        assert(p.last() == values[c - 1]);
        assert(p.len() == c);
        assert(cells_prefix_bytes(p) == cells_prefix_bytes(values.take(c - 1)).add(
            le_bytes(c - 1, 8).add(le_bytes(MOTION_TYPE_ID_LOW as int, 8)).add(
                le_bytes(MOTION_TYPE_ID_HIGH as int, 8),
            ).add(spec_value_bytes(values[c - 1])),
        ));
        assert(spec_cells_bytes(values, c - 1) == le_bytes(c - 1, 8).add(
            le_bytes(MOTION_TYPE_ID_LOW as int, 8),
        ).add(le_bytes(MOTION_TYPE_ID_HIGH as int, 8)).add(spec_value_bytes(values[c - 1])).add(
            spec_cells_bytes(values, c),
        ));
        assert(cells_prefix_bytes(values.take(c)).add(spec_cells_bytes(values, c))
            =~= cells_prefix_bytes(values.take(c - 1)).add(spec_cells_bytes(values, c - 1)));
    }
}

/// Reads the `n` little-endian bytes at `pos`, if they are all there.
fn read_le(bytes: &Vec<u8>, pos: usize, n: usize) -> (r: Option<i128>)
    requires
        n <= 8,
    ensures
        r is Some <==> pos + n <= bytes@.len(),
        r matches Some(v) ==> {
            &&& 0 <= v < pow256(n as nat)
            &&& le_bytes(v as int, n as nat) == bytes@.subrange(pos as int, pos + n)
        },
{
    let blen: usize = bytes.len();
    if pos > blen || n > blen - pos {
        return None;
    }
    let mut v: i128 = 0;
    let mut i: usize = n;
    proof {
        let tail = bytes@.subrange(pos as int, pos + n);
        lemma_le_reconstruct(tail, n as nat);
        assert(tail.subrange(0, n as int) =~= tail);
    }
    while i > 0
        invariant
            i <= n,
            n <= 8,
            pos + n <= blen,
            blen == bytes@.len(),
            0 <= v < pow256((n - i) as nat),
            v == le_value(bytes@.subrange(pos + i, pos + n), (n - i) as nat),
        decreases i,
    {
        proof {
            let whole = bytes@.subrange(pos + i - 1, pos + n);
            assert(whole[0] == bytes@[pos + i - 1]);
            assert(whole.subrange(1, whole.len() as int) =~= bytes@.subrange(pos + i, pos + n));
            lemma_pow256_pos((n - i) as nat);
            lemma_pow256_values();
            lemma_pow256_mono((n - i) as nat, 8);
            assert(bytes@[pos + i - 1] + 256 * v < pow256((n - i + 1) as nat))
                by (nonlinear_arith)
                requires
                    0 <= v < pow256((n - i) as nat),
                    0 <= bytes@[pos + i - 1] < 256,
                    pow256((n - i + 1) as nat) == 256 * pow256((n - i) as nat),
            ;
            lemma_pow256_mono((n - i + 1) as nat, 8);
        }
        v = (bytes[pos + i - 1] as i128) + 256 * v;
        i = i - 1;
    }
    proof {
        let tail = bytes@.subrange(pos as int, pos + n);
        lemma_le_reconstruct(tail, n as nat);
        assert(tail.subrange(0, n as int) =~= tail);
        assert(bytes@.subrange(pos + 0, pos + n) =~= tail);
    }
    Some(v)
}

/// Reads back the snapshot a byte string holds. Accepts exactly the strings
/// the encoder writes: whatever comes back was, byte for byte, written by
/// [`encode_snapshot`] of the returned moment and values, and every string
/// the encoder writes (within the decoder's size cap) comes back.
#[verifier::loop_isolation(false)]
#[verifier::rlimit(100)]
pub fn decode_snapshot(bytes: &Vec<u8>) -> (r: Option<(ExtendedTime, Vec<Option<Motion>>)>)
    ensures
        r matches Some(p) ==> bytes@ == spec_snapshot_bytes(p.0, p.1@),
        ((exists|t2: ExtendedTime, vs2: Seq<Option<Motion>>|
            bytes@ == spec_snapshot_bytes(t2, vs2)) && bytes@.len() <= 0x1000_0000) ==> r is Some,
{
    let ghost well = exists|t2: ExtendedTime, vs2: Seq<Option<Motion>>|
        bytes@ == spec_snapshot_bytes(t2, vs2);
    let ghost (gt, gvs): (ExtendedTime, Seq<Option<Motion>>) = if well {
        choose|t2: ExtendedTime, vs2: Seq<Option<Motion>>| bytes@ == spec_snapshot_bytes(t2, vs2)
    } else {
        (arbitrary(), arbitrary())
    };
    if bytes.len() > 0x1000_0000 {
        return None;
    }
    proof {
        lemma_pow256_values();
        if well {
            lemma_header_lens(gt, gvs);
            lemma_cells_bytes_min(gvs, 0);
            lemma_le_bytes_len(offset64(gt.base), 8);
            lemma_le_bytes_len(gt.iteration as int, 4);
            lemma_le_bytes_len(gt.id.data0 as int, 8);
            lemma_le_bytes_len(gt.id.data1 as int, 8);
            lemma_le_bytes_len(gvs.len() as int, 8);
            assert(bytes@.len() >= 36);
            assert(25 * gvs.len() <= 0x1000_0000);
            assert(gvs.len() < 0x1_0000_0000) by (nonlinear_arith)
                requires
                    25 * gvs.len() <= 0x1000_0000,
            ;
            assert(bytes@.subrange(0, 8) =~= le_bytes(offset64(gt.base), 8));
            assert(bytes@.subrange(8, 12) =~= le_bytes(gt.iteration as int, 4));
            assert(bytes@.subrange(12, 20) =~= le_bytes(gt.id.data0 as int, 8));
            assert(bytes@.subrange(20, 28) =~= le_bytes(gt.id.data1 as int, 8));
            assert(bytes@.subrange(28, 36) =~= le_bytes(gvs.len() as int, 8));
        }
    }
    let base_off = match read_le(bytes, 0, 8) {
        Some(v) => v,
        None => {
            return None;
        },
    };
    let iteration = match read_le(bytes, 8, 4) {
        Some(v) => v,
        None => {
            return None;
        },
    };
    let id0 = match read_le(bytes, 12, 8) {
        Some(v) => v,
        None => {
            return None;
        },
    };
    let id1 = match read_le(bytes, 20, 8) {
        Some(v) => v,
        None => {
            return None;
        },
    };
    let count = match read_le(bytes, 28, 8) {
        Some(v) => v,
        None => {
            return None;
        },
    };
    proof {
        if well {
            lemma_le_inj(base_off as int, offset64(gt.base), 8);
            lemma_le_inj(iteration as int, gt.iteration as int, 4);
            lemma_le_inj(id0 as int, gt.id.data0 as int, 8);
            lemma_le_inj(id1 as int, gt.id.data1 as int, 8);
            lemma_le_inj(count as int, gvs.len() as int, 8);
        }
    }
    let t = ExtendedTime {
        base: ((base_off + (i64::MIN as i128)) as i64),
        iteration: iteration as u32,
        id: DeterministicRandomId { data0: id0 as u64, data1: id1 as u64 },
    };
    if count > (usize::MAX as i128) {
        proof {
            if well {
                assert(false);
            }
        }
        return None;
    }
    let n = count as usize;
    if bytes.len() < 36 {
        return None;
    }
    proof {
        if well {
            assert(t == gt);
            assert(n as int == gvs.len());
        }
    }
    let mut values: Vec<Option<Motion>> = Vec::new();
    let mut pos: usize = 36;
    let mut c: usize = 0;
    proof {
        assert(bytes@.subrange(0, 36) =~= bytes@.subrange(0, 8).add(bytes@.subrange(8, 12)).add(
            bytes@.subrange(12, 20),
        ).add(bytes@.subrange(20, 28)).add(bytes@.subrange(28, 36)));
        assert(cells_prefix_bytes(values@) =~= Seq::<u8>::empty());
        assert(offset64(t.base) == base_off);
        assert(t.iteration as int == iteration);
        assert(t.id.data0 as int == id0 && t.id.data1 as int == id1);
        assert(n as int == count);
        assert(bytes@.subrange(0, 36) =~= le_bytes(offset64(t.base), 8).add(
            le_bytes(t.iteration as int, 4),
        ).add(le_bytes(t.id.data0 as int, 8)).add(le_bytes(t.id.data1 as int, 8)).add(
            le_bytes(n as int, 8),
        ).add(cells_prefix_bytes(values@)));
    }
    while c < n
        invariant
            bytes@.len() <= 0x1000_0000,
            c <= n,
            values@.len() == c,
            pos <= bytes@.len(),
            bytes@.subrange(0, pos as int) =~= le_bytes(offset64(t.base), 8).add(
                le_bytes(t.iteration as int, 4),
            ).add(le_bytes(t.id.data0 as int, 8)).add(le_bytes(t.id.data1 as int, 8)).add(
                le_bytes(n as int, 8),
            ).add(cells_prefix_bytes(values@)),
            well ==> (t == gt && n as int == gvs.len() && values@ == gvs.take(c as int)),
        decreases n - c,
    {
        proof {
            if well {
                lemma_decode_cell_shape(bytes@, gt, gvs, values@, c as int, pos as int);
            }
        }
        let ghost vs_before = values@;
        let ghost pos_before = pos as int;
        let serial = match read_le(bytes, pos, 8) {
            Some(v) => v,
            None => {
                return None;
            },
        };
        proof {
            if well {
                lemma_le_inj(serial as int, c as int, 8);
            }
        }
        if serial != c as i128 {
            return None;
        }
        let t0 = match read_le(bytes, pos + 8, 8) {
            Some(v) => v,
            None => {
                return None;
            },
        };
        let t1 = match read_le(bytes, pos + 16, 8) {
            Some(v) => v,
            None => {
                return None;
            },
        };
        proof {
            if well {
                lemma_le_inj(t0 as int, MOTION_TYPE_ID_LOW as int, 8);
                lemma_le_inj(t1 as int, MOTION_TYPE_ID_HIGH as int, 8);
            }
        }
        if t0 != MOTION_TYPE_ID_LOW as i128 || t1 != MOTION_TYPE_ID_HIGH as i128 {
            return None;
        }
        if pos + 24 >= bytes.len() {
            proof {
                if well {
                    assert(false);
                }
            }
            return None;
        }
        let tag = bytes[pos + 24];
        if tag == 0 {
            proof {
                if well {
                    assert(gvs[c as int] is None);
                }
            }
            values.push(None);
            proof {
                assert(bytes@.subrange(pos_before, pos_before + 25) =~= le_bytes(c as int, 8).add(
                    le_bytes(MOTION_TYPE_ID_LOW as int, 8),
                ).add(le_bytes(MOTION_TYPE_ID_HIGH as int, 8)).add(seq![0u8]));
                assert(values@.drop_last() =~= vs_before);
                assert(bytes@.subrange(0, pos_before + 25) =~= bytes@.subrange(
                    0,
                    pos_before,
                ).add(bytes@.subrange(pos_before, pos_before + 25)));
                if well {
                    assert(values@ =~= gvs.take(c + 1));
                }
            }
            pos = pos + 25;
        } else if tag == 1 {
            proof {
                if well {
                    assert(gvs[c as int] is Some);
                }
            }
            let p0 = match read_le(bytes, pos + 25, 8) {
                Some(v) => v,
                None => {
                    return None;
                },
            };
            let p1 = match read_le(bytes, pos + 33, 8) {
                Some(v) => v,
                None => {
                    return None;
                },
            };
            let p2 = match read_le(bytes, pos + 41, 8) {
                Some(v) => v,
                None => {
                    return None;
                },
            };
            let m = Motion {
                position: ((p0 + (i64::MIN as i128)) as i64),
                velocity: ((p1 + (i64::MIN as i128)) as i64),
                origin: ((p2 + (i64::MIN as i128)) as i64),
            };
            values.push(Some(m));
            proof {
                assert(offset64(m.position) == p0 && offset64(m.velocity) == p1 && offset64(
                    m.origin,
                ) == p2);
                assert(bytes@.subrange(pos_before, pos_before + 49) =~= le_bytes(c as int, 8).add(
                    le_bytes(MOTION_TYPE_ID_LOW as int, 8),
                ).add(le_bytes(MOTION_TYPE_ID_HIGH as int, 8)).add(
                    spec_value_bytes(Some(m)),
                ));
                assert(values@.drop_last() =~= vs_before);
                assert(bytes@.subrange(0, pos_before + 49) =~= bytes@.subrange(
                    0,
                    pos_before,
                ).add(bytes@.subrange(pos_before, pos_before + 49)));
                if well {
                    let gm = gvs[c as int]->0;
                    lemma_le_inj(p0 as int, offset64(gm.position), 8);
                    lemma_le_inj(p1 as int, offset64(gm.velocity), 8);
                    lemma_le_inj(p2 as int, offset64(gm.origin), 8);
                    assert(m == gm);
                    assert(values@ =~= gvs.take(c + 1));
                }
            }
            pos = pos + 49;
        } else {
            proof {
                if well {
                    assert(false);
                }
            }
            return None;
        }
        c = c + 1;
    }
    if pos != bytes.len() {
        proof {
            if well {
                assert(values@ == gvs.take(gvs.len() as int));
                assert(gvs.take(gvs.len() as int) =~= gvs);
                lemma_cells_decomp(gvs, gvs.len() as int);
                lemma_header_lens(gt, gvs);
                assert(spec_cells_bytes(gvs, gvs.len() as int) =~= Seq::<u8>::empty());
                assert(cells_prefix_bytes(gvs).add(Seq::<u8>::empty()) =~= cells_prefix_bytes(
                    gvs,
                ));
                assert(bytes@.subrange(0, pos as int).len() == bytes@.len());
                assert(false);
            }
        }
        return None;
    }
    proof {
        lemma_cells_decomp(values@, values@.len() as int);
        assert(values@.take(values@.len() as int) =~= values@);
        assert(spec_cells_bytes(values@, values@.len() as int) =~= Seq::<u8>::empty());
        assert(cells_prefix_bytes(values@).add(Seq::<u8>::empty()) =~= cells_prefix_bytes(
            values@,
        ));
        assert(bytes@.subrange(0, bytes@.len() as int) =~= bytes@);
        assert(bytes@ =~= spec_snapshot_bytes(t, values@));
    }
    Some((t, values))
}

/// Under a well-formed encoding, the bytes from the parse position on are
/// exactly the encoding of the remaining cells, so the next cell's serial
/// number, type identifier, tag and fields sit where the parser looks.
proof fn lemma_decode_cell_shape(
    bs: Seq<u8>,
    gt: ExtendedTime,
    gvs: Seq<Option<Motion>>,
    parsed: Seq<Option<Motion>>,
    c: int,
    pos: int,
)
    requires
        bs == spec_snapshot_bytes(gt, gvs),
        0 <= c < gvs.len(),
        parsed == gvs.take(c),
        bs.subrange(0, pos) == le_bytes(offset64(gt.base), 8).add(
            le_bytes(gt.iteration as int, 4),
        ).add(le_bytes(gt.id.data0 as int, 8)).add(le_bytes(gt.id.data1 as int, 8)).add(
            le_bytes(gvs.len() as int, 8),
        ).add(cells_prefix_bytes(parsed)),
        0 <= pos <= bs.len(),
    ensures
        bs.subrange(pos, bs.len() as int) == spec_cells_bytes(gvs, c),
        bs.subrange(pos, pos + 8) == le_bytes(c, 8),
        pos + 25 <= bs.len(),
        bs.subrange(pos + 8, pos + 16) == le_bytes(MOTION_TYPE_ID_LOW as int, 8),
        bs.subrange(pos + 16, pos + 24) == le_bytes(MOTION_TYPE_ID_HIGH as int, 8),
        bs[pos + 24] == spec_value_bytes(gvs[c])[0],
        gvs[c] is None ==> bs[pos + 24] == 0,
        gvs[c] matches Some(gm) ==> {
            &&& bs[pos + 24] == 1
            &&& pos + 49 <= bs.len()
            &&& bs.subrange(pos + 25, pos + 33) == le_bytes(offset64(gm.position), 8)
            &&& bs.subrange(pos + 33, pos + 41) == le_bytes(offset64(gm.velocity), 8)
            &&& bs.subrange(pos + 41, pos + 49) == le_bytes(offset64(gm.origin), 8)
        },
{
    lemma_header_lens(gt, gvs);
    lemma_cells_decomp(gvs, c);
    lemma_cells_bytes_min(gvs, c);
    lemma_le_bytes_len(offset64(gt.base), 8);
    lemma_le_bytes_len(gt.iteration as int, 4);
    lemma_le_bytes_len(gt.id.data0 as int, 8);
    lemma_le_bytes_len(gt.id.data1 as int, 8);
    lemma_le_bytes_len(gvs.len() as int, 8);
    lemma_le_bytes_len(c, 8);
    lemma_le_bytes_len(MOTION_TYPE_ID_LOW as int, 8);
    lemma_le_bytes_len(MOTION_TYPE_ID_HIGH as int, 8);
    let header = le_bytes(offset64(gt.base), 8).add(le_bytes(gt.iteration as int, 4)).add(
        le_bytes(gt.id.data0 as int, 8),
    ).add(le_bytes(gt.id.data1 as int, 8)).add(le_bytes(gvs.len() as int, 8));
    assert(bs == header.add(spec_cells_bytes(gvs, 0)));
    assert(spec_cells_bytes(gvs, 0) == cells_prefix_bytes(parsed).add(spec_cells_bytes(gvs, c)))
        by {
        assert(gvs.take(c) == parsed);
    }
    assert(header.len() == 36);
    assert(bs.subrange(0, pos) == header.add(cells_prefix_bytes(parsed)));
    assert(bs.subrange(0, pos).len() == pos);
    assert(header.add(cells_prefix_bytes(parsed)).len() == 36 + cells_prefix_bytes(
        parsed,
    ).len());
    assert(pos == 36 + cells_prefix_bytes(parsed).len());
    assert(bs.subrange(pos, bs.len() as int) =~= spec_cells_bytes(gvs, c));
    let seg = spec_cells_bytes(gvs, c);
    assert(seg == le_bytes(c, 8).add(le_bytes(MOTION_TYPE_ID_LOW as int, 8)).add(
        le_bytes(MOTION_TYPE_ID_HIGH as int, 8),
    ).add(spec_value_bytes(gvs[c])).add(spec_cells_bytes(gvs, c + 1)));
    match gvs[c] {
        Option::None => {},
        Option::Some(gm) => {
            lemma_le_bytes_len(offset64(gm.position), 8);
            lemma_le_bytes_len(offset64(gm.velocity), 8);
            lemma_le_bytes_len(offset64(gm.origin), 8);
        },
    }
    assert(bs.subrange(pos, pos + 8) =~= le_bytes(c, 8));
    assert(bs.subrange(pos + 8, pos + 16) =~= le_bytes(MOTION_TYPE_ID_LOW as int, 8));
    assert(bs.subrange(pos + 16, pos + 24) =~= le_bytes(MOTION_TYPE_ID_HIGH as int, 8));
    match gvs[c] {
        Option::None => {
            assert(bs[pos + 24] == spec_value_bytes(gvs[c])[0]);
        },
        Option::Some(gm) => {
            assert(bs[pos + 24] == spec_value_bytes(gvs[c])[0]);
            assert(bs.subrange(pos + 25, pos + 33) =~= le_bytes(offset64(gm.position), 8));
            assert(bs.subrange(pos + 33, pos + 41) =~= le_bytes(offset64(gm.velocity), 8));
            assert(bs.subrange(pos + 41, pos + 49) =~= le_bytes(offset64(gm.origin), 8));
        },
    }
}

/// Writes snapshot `k` out: its moment, then what it observes for every
/// cell, in the fixed byte order. Two snapshots that observe the same moment
/// and values write identical bytes.
#[verifier::loop_isolation(false)]
pub fn serialize_snapshot(steward: &mut Steward, k: usize) -> (r: Vec<u8>)
    requires
        old(steward).wf(),
        k < old(steward).snapshots@.len(),
        old(steward).snapshots@[k as int].live,
    ensures
        final(steward).wf(),
        r@ == spec_snapshot_bytes(
            old(steward).snapshots@[k as int].time,
            Seq::new(
                old(steward).cells@.len() as nat,
                |c: int| old(steward).snapshots@[k as int].at_creation@[c].1,
            ),
        ),
        final(steward).events == old(steward).events,
        final(steward).cells == old(steward).cells,
        final(steward).queue == old(steward).queue,
        final(steward).fiat_events == old(steward).fiat_events,
        final(steward).invalid_before == old(steward).invalid_before,
        final(steward).globals == old(steward).globals,
        final(steward).snapshots@.len() == old(steward).snapshots@.len(),
        forall|k2: int| 0 <= k2 < final(steward).snapshots@.len() ==> {
            let sn = #[trigger] final(steward).snapshots@[k2];
            let so = old(steward).snapshots@[k2];
            sn.live == so.live && sn.time == so.time && sn.at_creation == so.at_creation
        },
    {
        let ghost wanted = Seq::new(
            old(steward).cells@.len() as nat,
            |c: int| old(steward).snapshots@[k as int].at_creation@[c].1,
        );
        let n = steward.cells.len();
        let mut values: Vec<Option<Motion>> = Vec::new();
        let mut c: usize = 0;
        while c < n
            invariant
                steward.wf(),
                c <= n,
                n == old(steward).cells@.len(),
                k < steward.snapshots@.len(),
                values@.len() == c,
                steward.events == old(steward).events,
                steward.cells == old(steward).cells,
                steward.queue == old(steward).queue,
                steward.fiat_events == old(steward).fiat_events,
                steward.invalid_before == old(steward).invalid_before,
                steward.globals == old(steward).globals,
                steward.snapshots@.len() == old(steward).snapshots@.len(),
                forall|k2: int| 0 <= k2 < steward.snapshots@.len() ==> {
                    let sn = #[trigger] steward.snapshots@[k2];
                    let so = old(steward).snapshots@[k2];
                    sn.live == so.live && sn.time == so.time && sn.at_creation == so.at_creation
                },
                steward.snapshots@[k as int].live,
                forall|c2: int| 0 <= c2 < c ==> #[trigger] values@[c2] == wanted[c2],
            decreases n - c,
        {
            let ghost vprev = values@;
            let ghost pre_q = *steward;
            let v = steward.snapshot_query(k, c, crate::api::QueryOffset::After);
            values.push(v);
            proof {
                assert(pre_q.snapshots@[k as int].at_creation == old(steward).snapshots@[k as int].at_creation);
                assert(v == pre_q.snapshots@[k as int].at_creation@[c as int].1);
                assert(wanted[c as int] == old(steward).snapshots@[k as int].at_creation@[c as int].1);
                assert(values@[c as int] == wanted[c as int]);
                assert forall|c2: int| 0 <= c2 < c + 1 implies #[trigger] values@[c2] == wanted[c2] by {
                    if c2 < c {
                        assert(values@[c2] == vprev[c2]);
                    }
                }
            }
            c = c + 1;
        }
        let time_k = steward.snapshots[k].time;
        proof {
            assert(values@ =~= wanted);
        }
        encode_snapshot(&time_k, &values)
    }

/// Rebuilds a steward from a written snapshot: the returned steward permits
/// operations from the snapshot's base time on, and each of its cells
/// answers queries at that moment with the value the snapshot observed.
/// Bytes that no snapshot wrote are refused.
pub fn deserialize_from(bytes: &Vec<u8>) -> (r: Result<Steward, KernelError>)
    ensures
        ((exists|t2: ExtendedTime, vs2: Seq<Option<Motion>>|
            bytes@ == spec_snapshot_bytes(t2, vs2)) && bytes@.len() <= 0x1000_0000) ==> r is Ok,
        r == Err::<Steward, KernelError>(KernelError::DeserializationMismatch) || (
        r matches Ok(st) && exists|t: ExtendedTime, vs: Seq<Option<Motion>>|
            {
                &&& bytes@ == spec_snapshot_bytes(t, vs)
                &&& st.wf()
                &&& st.cells@.len() == vs.len()
                &&& st.invalid_before == ValidSince::Before(t.base)
                &&& st.events@.len() == 0
                &&& st.queue@.len() == 0
                &&& st.fiat_events@.len() == 0
                &&& st.snapshots@.len() == 0
                &&& (forall|c: int| 0 <= c < vs.len() ==> value_at(
                    (#[trigger] st.cells@[c]).data.changes@,
                    t,
                ) == vs[c])
            }),
{
    let decoded = match decode_snapshot(bytes) {
        Some(p) => p,
        None => {
            return Err(KernelError::DeserializationMismatch);
        },
    };
    let (t, vs) = decoded;
    let mut cells: Vec<DataTimelineCell> = Vec::new();
    let mut c: usize = 0;
    while c < vs.len()
        invariant
            c <= vs@.len(),
            cells@.len() == c,
            forall|c2: int| 0 <= c2 < c ==> {
                let h = (#[trigger] cells@[c2]).data.changes@;
                &&& history_sorted(h)
                &&& value_at(h, t) == vs@[c2]
                &&& cells@[c2].first_snapshot_not_updated == 0
            },
        decreases vs@.len() - c,
    {
        let mut tl: SimpleTimeline<Motion> = SimpleTimeline::new();
        match &vs[c] {
            Option::Some(m) => {
                tl.set_entry(&t, *m);
                proof {
                    assert(tl.changes@.len() >= 1) by {
                        if tl.changes@.len() == 0 {
                            assert(entry_at(tl.changes@, t) is None);
                        }
                    }
                    assert(tl.changes@[0].0 == t) by {
                        if tl.changes@[0].0 != t {
                            assert(tl.changes@.drop_last().len() == 0);
                            assert(entry_at(tl.changes@.drop_last(), t) is None);
                            assert(entry_at(tl.changes@, t) is None);
                        }
                    }
                    lemma_singleton_value(tl.changes@, t);
                    assert(entry_at(tl.changes@, t) == Some(tl.changes@[0].1));
                    assert(value_at(tl.changes@, t) == Some(*m));
                }
            },
            Option::None => {
                proof {
                    assert(value_at(tl.changes@, t) == Option::<Motion>::None);
                }
            },
        }
        cells.push(DataTimelineCell { first_snapshot_not_updated: 0, data: tl });
        c = c + 1;
    }
    let st = Steward {
        globals: Globals { cell_count: cells.len() },
        invalid_before: ValidSince::Before(t.base),
        events: Vec::new(),
        cells,
        queue: Vec::new(),
        fiat_events: Vec::new(),
        snapshots: Vec::new(),
    };
    proof {
        assert(st.wf());
        assert(bytes@ == spec_snapshot_bytes(t, vs@));
        assert(forall|c2: int| 0 <= c2 < vs@.len() ==> value_at(
            (#[trigger] st.cells@[c2]).data.changes@,
            t,
        ) == vs@[c2]);
    }
    Ok(st)
}

/// A history whose single entry sits exactly at `t` answers `t` with it.
proof fn lemma_singleton_value(s: Seq<(ExtendedTime, Motion)>, t: ExtendedTime)
    requires
        s.len() == 1,
        s[0].0 == t,
    ensures
        value_at(s, t) == Some(s[0].1),
{
    crate::api::lemma_et_order(t, t, t);
}

/// Small nonnegative quantities fit their byte widths.
proof fn lemma_le_small(x: int, n: nat)
    requires
        0 <= x,
        n == 4 ==> x < 0x1_0000_0000,
        n == 8 ==> x < 0x1_0000_0000_0000_0000,
        n == 4 || n == 8,
    ensures
        x < pow256(n),
{
    assert(pow256(4) == 0x1_0000_0000) by {
        reveal_with_fuel(pow256, 5);
    }
    assert(pow256(8) == 0x1_0000_0000_0000_0000) by {
        reveal_with_fuel(pow256, 9);
    }
}

} // verus!
