//! The `glyf` and `loca` tables of the subset, from the glyph descriptions of the new glyphs
//! in their new order: the glyph data one after the other, and their offsets.
use crate::read::{be_u16, be_u32};
use crate::write::{u16_bytes, u32_bytes, Writeable, Writer};
use crate::Error;
use vstd::prelude::*;

verus! {

/// The bytes of glyph descriptions.
pub open spec fn entries_view(entries: Seq<Vec<u8>>) -> Seq<Seq<u8>> {
    entries.map_values(|e: Vec<u8>| e@)
}

/// The size of the first `k` glyph descriptions, each padded to an even length.
pub open spec fn glyf_size(entries: Seq<Seq<u8>>, k: int) -> int
    decreases k,
{
    if k <= 0 {
        0
    } else {
        glyf_size(entries, k - 1) + entries[k - 1].len() + entries[k - 1].len() % 2
    }
}

/// Whether the long `loca` format is needed: the short one holds offsets up to 2 * 65535.
pub open spec fn spec_long_loca(entries: Seq<Seq<u8>>) -> bool {
    glyf_size(entries, entries.len() as int) > 2 * 65535
}

/// A glyph description as it is written: padded to an even length in the short format.
pub open spec fn written_entry(e: Seq<u8>, long: bool) -> Seq<u8> {
    if !long && e.len() % 2 == 1 {
        e.push(0u8)
    } else {
        e
    }
}

/// The first `k` glyph descriptions as they are written.
pub open spec fn spec_glyf(entries: Seq<Seq<u8>>, long: bool, k: int) -> Seq<u8>
    decreases k,
{
    if k <= 0 {
        Seq::empty()
    } else {
        spec_glyf(entries, long, k - 1) + written_entry(entries[k - 1], long)
    }
}

/// The `loca` entry for an offset.
pub open spec fn loca_entry(offset: int, long: bool) -> Seq<u8> {
    if long {
        u32_bytes((offset as u32) as int)
    } else {
        u16_bytes(((offset / 2) as u16) as int)
    }
}

/// The first `k` `loca` entries.
pub open spec fn spec_loca(entries: Seq<Seq<u8>>, long: bool, k: int) -> Seq<u8>
    decreases k,
{
    if k <= 0 {
        Seq::empty()
    } else {
        spec_loca(entries, long, k - 1) + loca_entry(spec_glyf(entries, long, k - 1).len() as int, long)
    }
}

/// The size of the padded descriptions grows.
proof fn lemma_glyf_size_grows(entries: Seq<Seq<u8>>, i: int, j: int)
    requires
        0 <= i <= j,
    ensures
        glyf_size(entries, i) <= glyf_size(entries, j),
    decreases j - i,
{
    if i < j {
        lemma_glyf_size_grows(entries, i, j - 1);
    }
}

/// The written descriptions take at most their padded size.
proof fn lemma_glyf_len(entries: Seq<Seq<u8>>, long: bool, k: int)
    requires
        0 <= k,
    ensures
        spec_glyf(entries, long, k).len() <= glyf_size(entries, k),
        !long ==> spec_glyf(entries, long, k).len() == glyf_size(entries, k),
        !long ==> spec_glyf(entries, long, k).len() % 2 == 0,
    decreases k,
{
    if k > 0 {
        lemma_glyf_len(entries, long, k - 1);
    }
}

/// Write the `glyf` and `loca` tables of the new glyphs; the result is the `loca` table, the
/// `glyf` table, and whether the long `loca` format is used.
pub fn subset(entries: &Vec<Vec<u8>>) -> (res: Result<(Vec<u8>, Vec<u8>, bool), Error>)
    ensures
        ({
            let es = entries_view(entries@);
            let n = es.len() as int;
            match res {
                Ok((loca, glyf, long)) => {
                    &&& glyf_size(es, n) <= usize::MAX
                    &&& long == spec_long_loca(es)
                    &&& glyf@ == spec_glyf(es, long, n)
                    &&& loca@ == spec_loca(es, long, n + 1)
                },
                Err(e) => e == Error::OverflowError && glyf_size(es, n) > usize::MAX,
            }
        }),
{
    let ghost es = entries_view(entries@);
    let n = entries.len();
    let mut size: usize = 0;
    let mut i: usize = 0;
    while i < n
        invariant
            i <= n,
            n == es.len(),
            es == entries_view(entries@),
            size == glyf_size(es, i as int),
        decreases n - i,
    {
        let len = entries[i].len();
        assert(len == es[i as int].len());
        let padded = match len.checked_add(len % 2) {
            Some(p) => p,
            None => {
                proof {
                    lemma_glyf_size_grows(es, i + 1, n as int);
                }
                return Err(Error::OverflowError);
            },
        };
        size = match size.checked_add(padded) {
            Some(s) => s,
            None => {
                proof {
                    lemma_glyf_size_grows(es, i + 1, n as int);
                }
                return Err(Error::OverflowError);
            },
        };
        i = i + 1;
    }
    let long_loca = size > 2 * 65535;
    let mut sub_glyf = Writer::new();
    let mut sub_loca = Writer::new();
    let mut i: usize = 0;
    while i < n
        invariant
            i <= n,
            n == es.len(),
            es == entries_view(entries@),
            glyf_size(es, n as int) <= usize::MAX,
            long_loca == spec_long_loca(es),
            sub_glyf@ == spec_glyf(es, long_loca, i as int),
            sub_loca@ == spec_loca(es, long_loca, i as int),
        decreases n - i,
    {
        proof {
            lemma_glyf_len(es, long_loca, i as int);
            lemma_glyf_size_grows(es, i as int, n as int);
        }
        let offset = sub_glyf.len();
        if long_loca {
            (offset as u32).write(&mut sub_loca);
        } else {
            ((offset / 2) as u16).write(&mut sub_loca);
        }
        let ghost before = sub_glyf@;
        sub_glyf.extend(entries[i].as_slice());
        if !long_loca {
            if entries[i].len() % 2 == 1 {
                sub_glyf.push(0);
            }
        }
        assert(sub_glyf@ =~= before + written_entry(es[i as int], long_loca));
        i = i + 1;
    }
    proof {
        lemma_glyf_len(es, long_loca, n as int);
    }
    // The final offset.
    let offset = sub_glyf.len();
    if long_loca {
        (offset as u32).write(&mut sub_loca);
    } else {
        ((offset / 2) as u16).write(&mut sub_loca);
    }
    Ok((sub_loca.finish(), sub_glyf.finish(), long_loca))
}

/// The offset that `loca` entry `j` gives: a 32-bit offset, or a 16-bit half offset.
pub open spec fn loca_offset(loca: Seq<u8>, long: bool, j: int) -> int {
    if long {
        be_u32(loca[4 * j], loca[4 * j + 1], loca[4 * j + 2], loca[4 * j + 3])
    } else {
        2 * be_u16(loca[2 * j], loca[2 * j + 1])
    }
}

/// The first `k` `loca` entries, each as long as its format says, hold the offsets of the
/// first `k` written descriptions.
proof fn lemma_loca_entries(es: Seq<Seq<u8>>, long: bool, k: int, j: int)
    requires
        0 <= j < k,
        long ==> glyf_size(es, k - 1) <= u32::MAX,
        !long ==> glyf_size(es, k - 1) <= 2 * 65535,
    ensures
        spec_loca(es, long, k).len() == k * (if long { 4int } else { 2int }),
        loca_offset(spec_loca(es, long, k), long, j) == spec_glyf(es, long, j).len(),
    decreases k,
{
    let w = if long { 4int } else { 2int };
    lemma_glyf_len(es, long, k - 1);
    lemma_glyf_size_grows(es, j, k - 1);
    lemma_glyf_len(es, long, j);
    if k - 1 > 0 {
        lemma_glyf_size_grows(es, k - 2, k - 1);
        lemma_loca_entries(es, long, k - 1, if j < k - 1 { j } else { 0 });
    }
    let prev = spec_loca(es, long, k - 1);
    let e = loca_entry(spec_glyf(es, long, k - 1).len() as int, long);
    assert(spec_loca(es, long, k) == prev + e);
    assert(prev.len() == (k - 1) * w) by {
        if k - 1 == 0 {
        }
    }
    if j == k - 1 {
        let off = spec_glyf(es, long, j).len() as int;
        if long {
            assert(loca_offset(prev + e, long, j) == be_u32(e[0], e[1], e[2], e[3])) by {
                assert((prev + e)[4 * j] == e[0]);
                assert((prev + e)[4 * j + 1] == e[1]);
                assert((prev + e)[4 * j + 2] == e[2]);
                assert((prev + e)[4 * j + 3] == e[3]);
            }
            crate::write::lemma_u32_roundtrip(off as u32);
        } else {
            assert(loca_offset(prev + e, long, j) == 2 * be_u16(e[0], e[1])) by {
                assert((prev + e)[2 * j] == e[0]);
                assert((prev + e)[2 * j + 1] == e[1]);
            }
            crate::write::lemma_u16_roundtrip((off / 2) as u16);
        }
    } else {
        if long {
            assert((prev + e)[4 * j] == prev[4 * j]);
            assert((prev + e)[4 * j + 1] == prev[4 * j + 1]);
            assert((prev + e)[4 * j + 2] == prev[4 * j + 2]);
            assert((prev + e)[4 * j + 3] == prev[4 * j + 3]);
        } else {
            assert((prev + e)[2 * j] == prev[2 * j]);
            assert((prev + e)[2 * j + 1] == prev[2 * j + 1]);
        }
    }
}

/// The first `j` written descriptions start the first `k`.
proof fn lemma_glyf_prefix(es: Seq<Seq<u8>>, long: bool, j: int, k: int)
    requires
        0 <= j <= k,
    ensures
        spec_glyf(es, long, j).len() <= spec_glyf(es, long, k).len(),
        spec_glyf(es, long, k).subrange(0, spec_glyf(es, long, j).len() as int) == spec_glyf(
            es,
            long,
            j,
        ),
    decreases k - j,
{
    if j < k {
        lemma_glyf_prefix(es, long, j, k - 1);
        let a = spec_glyf(es, long, k - 1);
        let b = spec_glyf(es, long, k);
        assert(b == a + written_entry(es[k - 1], long));
        assert(b.subrange(0, spec_glyf(es, long, j).len() as int) =~= a.subrange(
            0,
            spec_glyf(es, long, j).len() as int,
        ));
    } else {
        assert(spec_glyf(es, long, k).subrange(0, spec_glyf(es, long, k).len() as int) =~= spec_glyf(
            es,
            long,
            k,
        ));
    }
}

/// Law: the `loca` table that [`subset`] writes locates each glyph in its `glyf` table: the
/// offsets of entries `i` and `i + 1` bound the description of glyph `i`, as written (padded
/// to an even length in the short format). This needs the offsets to fit the format: in the
/// long format, the glyph data must not outgrow 32-bit offsets.
pub proof fn lemma_loca_locates(es: Seq<Seq<u8>>, i: int)
    requires
        0 <= i < es.len(),
        glyf_size(es, es.len() as int) <= u32::MAX,
    ensures
        ({
            let long = spec_long_loca(es);
            let n = es.len() as int;
            let loca = spec_loca(es, long, n + 1);
            let glyf = spec_glyf(es, long, n);
            &&& 0 <= loca_offset(loca, long, i) <= loca_offset(loca, long, i + 1) <= glyf.len()
            &&& glyf.subrange(loca_offset(loca, long, i), loca_offset(loca, long, i + 1))
                == written_entry(es[i], long)
        }),
{
    let long = spec_long_loca(es);
    let n = es.len() as int;
    lemma_loca_entries(es, long, n + 1, i);
    lemma_loca_entries(es, long, n + 1, i + 1);
    lemma_glyf_prefix(es, long, i, i + 1);
    lemma_glyf_prefix(es, long, i + 1, n);
    let a = spec_glyf(es, long, i);
    let b = spec_glyf(es, long, i + 1);
    let g = spec_glyf(es, long, n);
    assert(b == a + written_entry(es[i], long));
    assert(g.subrange(a.len() as int, b.len() as int) =~= b.subrange(a.len() as int, b.len() as int));
    assert(b.subrange(a.len() as int, b.len() as int) =~= written_entry(es[i], long));
}

} // verus!
