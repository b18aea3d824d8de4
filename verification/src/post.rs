//! The `post` table contains name information for glyphs, needed by some PostScript
//! printers. Only a version 2 table holds custom names, so it is the only version that is
//! subsetted: the names of the requested glyphs are written, in the new glyph order, into a
//! new table.
use crate::read::{be_u16, be_u32, lemma_has_rest, lemma_reader_advance, lemma_reader_rest, LazyArray16, Reader};
use crate::remapper::GlyphRemapper;
use crate::write::{u16_bytes, Writeable, Writer};
use crate::Error;
use vstd::prelude::*;

verus! {

/// The names of a version 2 `post` table from `off` on: Pascal strings, up to the end, an
/// empty string or a string that runs past the end.
pub open spec fn spec_names_from(d: Seq<u8>, off: int) -> Seq<Seq<u8>>
    decreases d.len() - off,
{
    if off < 0 || off >= d.len() || d[off] == 0 || off + 1 + d[off] > d.len() {
        Seq::empty()
    } else {
        seq![d.subrange(off + 1, off + 1 + d[off])] + spec_names_from(d, off + 1 + d[off])
    }
}

/// An iterator over glyph names. The `post` table doesn't provide the glyph names count,
/// so all of them have to be read to find it out.
#[derive(Clone, Copy)]
pub struct Names<'a> {
    data: &'a [u8],
    offset: usize,
}

impl<'a> Names<'a> {
    /// The names that are still to come.
    pub closed spec fn spec_rest(&self) -> Seq<Seq<u8>> {
        spec_names_from(self.data@, self.offset as int)
    }

    /// The next name: `None` at the end of the data, at an empty name (an error) or at a
    /// name that runs past the end.
    pub fn next(&mut self) -> (res: Option<&'a [u8]>)
        ensures
            old(self).spec_rest().len() == 0 ==> res is None,
            old(self).spec_rest().len() > 0 ==> (res matches Some(n) && n@ == old(self).spec_rest()[0]
                && final(self).spec_rest() == old(self).spec_rest().drop_first()),
    {
        if self.offset >= self.data.len() {
            return None;
        }
        let len = self.data[self.offset] as usize;
        // An empty name is an error.
        if len == 0 {
            return None;
        }
        let start = self.offset + 1;
        if len > self.data.len() - start {
            return None;
        }
        let name = &self.data[start..start + len];
        self.offset = start + len;
        Some(name)
    }

    /// All the names that are still to come.
    pub fn collect(&mut self) -> (res: Vec<&'a [u8]>)
        ensures
            res@.map_values(|n: &[u8]| n@) == old(self).spec_rest(),
    {
        let mut v: Vec<&'a [u8]> = Vec::new();
        let ghost all = self.spec_rest();
        loop
            invariant_except_break
                all == old(self).spec_rest(),
                all == v@.map_values(|n: &[u8]| n@) + self.spec_rest(),
            ensures
                all == v@.map_values(|n: &[u8]| n@),
            decreases self.spec_rest().len(),
        {
            let ghost prev = v@.map_values(|n: &[u8]| n@);
            let ghost rest = self.spec_rest();
            match self.next() {
                Some(n) => {
                    v.push(n);
                    proof {
                        assert(v@.map_values(|n: &[u8]| n@) =~= prev.push(n@));
                        assert(prev + rest =~= prev.push(n@) + rest.drop_first());
                    }
                },
                None => {
                    assert(prev + rest =~= prev);
                    break;
                },
            }
        }
        v
    }
}

/// A version 2 `post` table.
#[derive(Clone, Copy)]
pub struct Version2Table<'a> {
    /// The first 32 bytes.
    pub header: &'a [u8],
    /// The name index of each glyph.
    pub glyph_indexes: LazyArray16<'a, u16>,
    /// The data of the names.
    pub names_data: &'a [u8],
}

/// Parse a version 2 `post` table: header, glyph name index data and names data.
pub open spec fn spec_parse_post2(d: Seq<u8>) -> Option<(Seq<u8>, Seq<u8>, Seq<u8>)> {
    if d.len() < 34 || be_u32(d[0], d[1], d[2], d[3]) != 0x00020000 {
        None
    } else {
        let count = be_u16(d[32], d[33]);
        if 34 + 2 * count > d.len() {
            None
        } else {
            Some(
                (
                    d.subrange(0, 32),
                    d.subrange(34, 34 + 2 * count),
                    d.subrange(34 + 2 * count, d.len() as int),
                ),
            )
        }
    }
}

/// The name index of glyph `i` in the glyph name index data `ix`.
pub open spec fn spec_name_index(ix: Seq<u8>, i: int) -> Option<u16> {
    if 0 <= i < (ix.len() / 2) % 65536 {
        Some(be_u16(ix[2 * i], ix[2 * i + 1]) as u16)
    } else {
        None
    }
}

impl<'a> Version2Table<'a> {
    /// Parse a version 2 table. The exact length is not checked, since some fonts include
    /// padding in the table's length in their table records.
    pub fn parse(data: &'a [u8]) -> (res: Option<Self>)
        ensures
            match spec_parse_post2(data@) {
                Some((h, ix, n)) => res matches Some(t) && t.header@ == h
                    && t.glyph_indexes.spec_data() == ix && t.names_data@ == n,
                None => res is None,
            },
    {
        let ghost d = data@;
        if data.len() < 34 {
            return None;
        }
        let mut r = Reader::new(data);
        let version = r.read::<u32>()?;
        assert(r.spec_data().subrange(0, 4) =~= d.subrange(0, 4));
        if version != 0x00020000 {
            return None;
        }
        let mut r = Reader::new(data);
        let header = r.read_bytes(32)?;
        let indexes_count = r.read::<u16>()?;
        assert(r.spec_data().subrange(32, 34) =~= d.subrange(32, 34));
        let glyph_indexes = r.read_array16::<u16>(indexes_count)?;
        let names_data = r.tail()?;
        Some(Version2Table { header, glyph_indexes, names_data })
    }

    /// The glyph names; the predefined ones are not included, only those in the font file.
    pub fn names(&self) -> (res: Names<'a>)
        ensures
            res.spec_rest() == spec_names_from(self.names_data@, 0),
    {
        Names { data: self.names_data, offset: 0 }
    }
}

/// The name index entries and name storage for the first `k` glyphs `gids`: indices below 258
/// refer to the standard Macintosh names and are kept; the others get the next custom index,
/// with their name (empty if it is missing) in the new storage. The result is the index
/// bytes, the storage and the number of custom names.
pub open spec fn spec_post_entries(
    ix: Seq<u8>,
    names: Seq<Seq<u8>>,
    gids: Seq<u16>,
    k: int,
) -> Result<(Seq<u8>, Seq<u8>, int), Error>
    decreases k,
{
    if k <= 0 {
        Ok((Seq::empty(), Seq::empty(), 0))
    } else {
        match spec_post_entries(ix, names, gids, k - 1) {
            Err(e) => Err(e),
            Ok((ib, st, count)) => match spec_name_index(ix, gids[k - 1] as int) {
                None => Err(Error::MalformedFont),
                Some(index) => if index <= 257 {
                    Ok((ib + u16_bytes(index as int), st, count))
                } else {
                    let name = if index - 258 < names.len() {
                        names[index - 258]
                    } else {
                        Seq::empty()
                    };
                    if name.len() > 255 || count + 258 > u16::MAX {
                        Err(Error::OverflowError)
                    } else {
                        Ok(
                            (
                                ib + u16_bytes(count + 258),
                                st + seq![name.len() as u8] + name,
                                count + 1,
                            ),
                        )
                    }
                },
            },
        }
    }
}

/// Once a glyph fails, the longer prefixes fail the same way.
proof fn lemma_post_entries_err(ix: Seq<u8>, names: Seq<Seq<u8>>, gids: Seq<u16>, k: int, m: int)
    requires
        0 <= k <= m,
        spec_post_entries(ix, names, gids, k) is Err,
    ensures
        spec_post_entries(ix, names, gids, m) == spec_post_entries(ix, names, gids, k),
    decreases m - k,
{
    if k < m {
        lemma_post_entries_err(ix, names, gids, k, m - 1);
    }
}

/// The new `post` table: unchanged unless it is a version 2 table, which is subsetted.
pub open spec fn spec_post(d: Seq<u8>, gids: Seq<u16>) -> Result<Seq<u8>, Error> {
    if d.len() < 4 {
        Err(Error::MalformedFont)
    } else if be_u32(d[0], d[1], d[2], d[3]) != 0x00020000 {
        Ok(d)
    } else {
        match spec_parse_post2(d) {
            None => Err(Error::MalformedFont),
            Some((h, ix, nd)) => match spec_post_entries(
                ix,
                spec_names_from(nd, 0),
                gids,
                gids.len() as int,
            ) {
                Err(e) => Err(e),
                Ok((ib, st, _)) => Ok(h + u16_bytes(gids.len() as int) + ib + st),
            },
        }
    }
}

/// Subset the `post` table.
pub fn subset(post: &[u8], mapper: &GlyphRemapper) -> (res: Result<Vec<u8>, Error>)
    requires
        mapper.wf(),
        !mapper.spec_is_identity(),
    ensures
        match spec_post(post@, mapper.spec_gids()) {
            Ok(b) => res matches Ok(v) && v@ == b,
            Err(e) => res matches Err(e2) && e2 == e,
        },
{
    let ghost d = post@;
    let mut r = Reader::new(post);
    let version = match r.read::<u32>() {
        Some(v) => v,
        None => return Err(Error::MalformedFont),
    };
    assert(r.spec_data().subrange(0, 4) =~= d.subrange(0, 4));
    // Version 2 is the only one worth subsetting.
    if version != 0x00020000 {
        return Ok(vstd::slice::slice_to_vec(post));
    }
    let table = match Version2Table::parse(post) {
        Some(t) => t,
        None => return Err(Error::MalformedFont),
    };
    let mut names_iter = table.names();
    let names = names_iter.collect();
    let ghost ns = names@.map_values(|n: &[u8]| n@);
    let ghost ix = table.glyph_indexes.spec_data();
    let gids = mapper.remapped_gids();
    let mut sub_post = Writer::new();
    sub_post.extend(table.header);
    mapper.num_gids().write(&mut sub_post);
    let ghost head = sub_post@;
    let mut string_storage = Writer::new();
    let mut string_index: usize = 0;
    let ghost total = match spec_post_entries(ix, ns, gids@, gids@.len() as int) {
        Err(e) => Err(e),
        Ok((ib, st, _)) => Ok(table.header@ + u16_bytes(gids@.len() as int) + ib + st),
    };
    assert(spec_post(d, gids@) == total);
    let mut i: usize = 0;
    while i < gids.len()
        invariant
            i <= gids@.len(),
            d == post@,
            spec_post(d, mapper.spec_gids()) == total,
            total == (match spec_post_entries(ix, ns, gids@, gids@.len() as int) {
                Err(e) => Err(e),
                Ok((ib, st, _)) => Ok(table.header@ + u16_bytes(gids@.len() as int) + ib + st),
            }),
            gids@ == mapper.spec_gids(),
            ns == names@.map_values(|n: &[u8]| n@),
            ix == table.glyph_indexes.spec_data(),
            spec_post_entries(ix, ns, gids@, i as int) matches Ok((ib, st, count)) && sub_post@
                == head + ib && string_storage@ == st && string_index == count,
        decreases gids@.len() - i,
    {
        let old_gid = gids[i];
        let index = match table.glyph_indexes.get(old_gid) {
            Some(x) => x,
            None => {
                proof {
                    lemma_post_entries_err(ix, ns, gids@, i + 1, gids@.len() as int);
                }
                return Err(Error::MalformedFont);
            },
        };
        proof {
            let g = old_gid as int;
            if g < (ix.len() / 2) % 65536 {
                assert(ix.subrange(2 * g, (g + 1) * 2)[0] == ix[2 * g]);
                assert(ix.subrange(2 * g, (g + 1) * 2)[1] == ix[2 * g + 1]);
            }
        }
        // IDs smaller than 258 refer to the names in the Macintosh TrueType file.
        if index <= 257 {
            index.write(&mut sub_post);
        } else {
            let k = (index - 258) as usize;
            // Some fonts have a wrong name table; a missing name is written as empty.
            let empty: &[u8] = &[];
            assert(empty@ =~= Seq::<u8>::empty());
            let name = if k < names.len() {
                names[k]
            } else {
                empty
            };
            if name.len() > 255 || string_index > 65535 - 258 {
                proof {
                    lemma_post_entries_err(ix, ns, gids@, i + 1, gids@.len() as int);
                }
                return Err(Error::OverflowError);
            }
            ((string_index + 258) as u16).write(&mut sub_post);
            string_storage.push(name.len() as u8);
            string_storage.extend(name);
            string_index = string_index + 1;
        }
        i = i + 1;
    }
    let storage = string_storage.finish();
    sub_post.extend(storage.as_slice());
    Ok(sub_post.finish())
}

/// The name of a glyph in a version 2 table.
pub enum GlyphName {
    /// One of the standard Macintosh names, by its index.
    Standard(u16),
    /// A name stored in the table (empty where the table lacks it).
    Custom(Seq<u8>),
}

/// The name of glyph `g` in a version 2 table with name index data `ix` and names `names`.
pub open spec fn glyph_name(ix: Seq<u8>, names: Seq<Seq<u8>>, g: int) -> Option<GlyphName> {
    match spec_name_index(ix, g) {
        None => None,
        Some(index) => Some(
            if index <= 257 {
                GlyphName::Standard(index)
            } else if index - 258 < names.len() {
                GlyphName::Custom(names[index - 258])
            } else {
                GlyphName::Custom(Seq::empty())
            },
        ),
    }
}

/// Whether glyph `g` refers to a name that the table lacks.
pub open spec fn missing_name(ix: Seq<u8>, names: Seq<Seq<u8>>, g: int) -> bool {
    spec_name_index(ix, g) matches Some(index) && index > 257 && index - 258 >= names.len()
}

/// The names written into the new storage for the first `k` glyphs `gids`.
pub open spec fn custom_names(ix: Seq<u8>, names: Seq<Seq<u8>>, gids: Seq<u16>, k: int) -> Seq<
    Seq<u8>,
>
    decreases k,
{
    if k <= 0 {
        Seq::empty()
    } else {
        let prev = custom_names(ix, names, gids, k - 1);
        match glyph_name(ix, names, gids[k - 1] as int) {
            Some(GlyphName::Custom(n)) => prev.push(n),
            _ => prev,
        }
    }
}

/// Names as Pascal strings, one after the other.
pub open spec fn pascal_strings(l: Seq<Seq<u8>>) -> Seq<u8>
    decreases l.len(),
{
    if l.len() == 0 {
        Seq::empty()
    } else {
        seq![l[0].len() as u8] + l[0] + pascal_strings(l.drop_first())
    }
}

/// Appending a name appends its Pascal string.
proof fn lemma_pascal_push(l: Seq<Seq<u8>>, n: Seq<u8>)
    ensures
        pascal_strings(l.push(n)) == pascal_strings(l) + seq![n.len() as u8] + n,
    decreases l.len(),
{
    let b = seq![n.len() as u8];
    if l.len() > 0 {
        lemma_pascal_push(l.drop_first(), n);
        assert(l.push(n).drop_first() =~= l.drop_first().push(n));
        assert(l.push(n)[0] == l[0]);
        let h = seq![l[0].len() as u8] + l[0];
        assert(pascal_strings(l.push(n)) == h + pascal_strings(l.drop_first().push(n)));
        assert(h + (pascal_strings(l.drop_first()) + b + n) =~= (h + pascal_strings(
            l.drop_first(),
        )) + b + n);
    } else {
        assert(l.push(n).drop_first() =~= Seq::<Seq<u8>>::empty());
        assert(l.push(n)[0] == n);
        assert(pascal_strings(l.push(n)) == b + n + pascal_strings(Seq::<Seq<u8>>::empty()));
        assert(b + n + Seq::<u8>::empty() =~= Seq::<u8>::empty() + b + n);
    }
}

/// Reading back Pascal strings gives the names up to the first empty one.
proof fn lemma_pascal_read(pre: Seq<u8>, l: Seq<Seq<u8>>, m: int)
    requires
        0 <= m <= l.len(),
        forall|q: int| 0 <= q < l.len() ==> (#[trigger] l[q]).len() <= 255,
        forall|q: int| 0 <= q < m ==> (#[trigger] l[q]).len() >= 1,
    ensures
        ({
            let r = spec_names_from(pre + pascal_strings(l), pre.len() as int);
            &&& r.len() >= m
            &&& forall|q: int| 0 <= q < m ==> #[trigger] r[q] == l[q]
            &&& m < l.len() && l[m].len() == 0 ==> r.len() == m
        }),
    decreases l.len(),
{
    let d = pre + pascal_strings(l);
    let off = pre.len() as int;
    if l.len() > 0 {
        let n = l[0];
        let rest = l.drop_first();
        let pre2 = pre + seq![n.len() as u8] + n;
        assert(d =~= pre2 + pascal_strings(rest));
        assert(d[off] == n.len() as u8);
        if m == 0 {
            if n.len() == 0 {
                assert(spec_names_from(d, off) == Seq::<Seq<u8>>::empty());
            }
        } else {
            lemma_pascal_read(pre2, rest, m - 1);
            assert(d.subrange(off + 1, off + 1 + n.len()) =~= n);
            let r = spec_names_from(d, off);
            let r2 = spec_names_from(d, off + 1 + n.len());
            assert(r == seq![n] + r2);
            assert forall|q: int| 0 <= q < m implies #[trigger] r[q] == l[q] by {
                if q > 0 {
                    assert(r[q] == r2[q - 1]);
                    assert(l[q] == rest[q - 1]);
                }
            }
            if m < l.len() && l[m].len() == 0 {
                assert(rest[m - 1] == l[m]);
            }
        }
    }
}

/// The names of a table are not empty.
proof fn lemma_names_nonempty(d: Seq<u8>, off: int)
    ensures
        forall|q: int|
            0 <= q < spec_names_from(d, off).len() ==> (#[trigger] spec_names_from(d, off)[q]).len()
                >= 1,
    decreases d.len() - off,
{
    if !(off < 0 || off >= d.len() || d[off] == 0 || off + 1 + d[off] > d.len()) {
        lemma_names_nonempty(d, off + 1 + d[off]);
        let r = spec_names_from(d, off);
        let r2 = spec_names_from(d, off + 1 + d[off]);
        assert forall|q: int| 0 <= q < r.len() implies (#[trigger] r[q]).len() >= 1 by {
            if q > 0 {
                assert(r[q] == r2[q - 1]);
            }
        }
    }
}

/// The shape of the entries for the first `k` glyphs: an index entry each, the standard
/// index or the position of the glyph's name among the names written, which are stored
/// as Pascal strings.
proof fn lemma_post_entries_shape(ix: Seq<u8>, names: Seq<Seq<u8>>, gids: Seq<u16>, k: int)
    requires
        0 <= k <= gids.len(),
        spec_post_entries(ix, names, gids, k) is Ok,
    ensures
        ({
            let (ib, st, count) = spec_post_entries(ix, names, gids, k).unwrap();
            let l = custom_names(ix, names, gids, k);
            &&& ib.len() == 2 * k
            &&& st == pascal_strings(l)
            &&& count == l.len()
            &&& forall|q: int| 0 <= q < l.len() ==> (#[trigger] l[q]).len() <= 255
            &&& forall|i: int|
                0 <= i < k ==> #[trigger] be_u16(ib[2 * i], ib[2 * i + 1]) == match glyph_name(
                    ix,
                    names,
                    gids[i] as int,
                ) {
                    Some(GlyphName::Standard(index)) => index as int,
                    _ => 258 + custom_names(ix, names, gids, i).len() as int,
                }
            &&& forall|i: int|
                #![trigger custom_names(ix, names, gids, i)]
                0 <= i < k ==> (glyph_name(ix, names, gids[i] as int) matches Some(
                    GlyphName::Custom(n),
                ) ==> custom_names(ix, names, gids, i).len() < l.len() && l[custom_names(
                    ix,
                    names,
                    gids,
                    i,
                ).len() as int] == n)
        }),
    decreases k,
{
    if k > 0 {
        lemma_post_entries_shape(ix, names, gids, k - 1);
        let (ib, st, count) = spec_post_entries(ix, names, gids, k - 1).unwrap();
        let (ib2, st2, count2) = spec_post_entries(ix, names, gids, k).unwrap();
        let l = custom_names(ix, names, gids, k - 1);
        let l2 = custom_names(ix, names, gids, k);
        let index = spec_name_index(ix, gids[k - 1] as int).unwrap();
        let e = if index <= 257 { index as int } else { count + 258 };
        assert(ib2 == ib + u16_bytes(e));
        assert(be_u16(ib2[2 * (k - 1)], ib2[2 * (k - 1) + 1]) == e);
        if index > 257 {
            let name = if index - 258 < names.len() { names[index - 258] } else { Seq::empty() };
            assert(l2 == l.push(name));
            lemma_pascal_push(l, name);
        }
        assert forall|i: int| 0 <= i < k - 1 implies #[trigger] ib2[2 * i] == ib[2 * i] && ib2[2
            * i + 1] == ib[2 * i + 1] by {}
        assert forall|i: int|
            #![trigger custom_names(ix, names, gids, i)]
            0 <= i < k implies (glyph_name(ix, names, gids[i] as int) matches Some(
                GlyphName::Custom(n),
            ) ==> custom_names(ix, names, gids, i).len() < l2.len() && l2[custom_names(
                ix,
                names,
                gids,
                i,
            ).len() as int] == n) by {
            if i < k - 1 {
                if glyph_name(ix, names, gids[i] as int) matches Some(GlyphName::Custom(n)) {
                    assert(l2[custom_names(ix, names, gids, i).len() as int] == l[custom_names(
                        ix,
                        names,
                        gids,
                        i,
                    ).len() as int]);
                }
            }
        }
    }
}

/// The names written for a prefix of the glyphs begin the names written for all of them.
proof fn lemma_custom_prefix(ix: Seq<u8>, names: Seq<Seq<u8>>, gids: Seq<u16>, i: int, n: int)
    requires
        0 <= i <= n,
    ensures
        custom_names(ix, names, gids, i).len() <= custom_names(ix, names, gids, n).len(),
        forall|q: int|
            0 <= q < custom_names(ix, names, gids, i).len() ==> #[trigger] custom_names(
                ix,
                names,
                gids,
                n,
            )[q] == custom_names(ix, names, gids, i)[q],
    decreases n - i,
{
    if i < n {
        lemma_custom_prefix(ix, names, gids, i, n - 1);
    }
}

/// Where no glyph refers to a missing name, the names written are the table's own, which
/// are not empty.
proof fn lemma_custom_nonempty(ix: Seq<u8>, names: Seq<Seq<u8>>, gids: Seq<u16>, i: int)
    requires
        0 <= i <= gids.len(),
        forall|q: int| 0 <= q < names.len() ==> (#[trigger] names[q]).len() >= 1,
        forall|j: int| 0 <= j < i ==> !missing_name(ix, names, gids[j] as int),
    ensures
        forall|q: int|
            0 <= q < custom_names(ix, names, gids, i).len() ==> (#[trigger] custom_names(
                ix,
                names,
                gids,
                i,
            )[q]).len() >= 1,
    decreases i,
{
    if i > 0 {
        lemma_custom_nonempty(ix, names, gids, i - 1);
        assert(!missing_name(ix, names, gids[i - 1] as int));
        let prev = custom_names(ix, names, gids, i - 1);
        let cur = custom_names(ix, names, gids, i);
        assert forall|q: int| 0 <= q < cur.len() implies (#[trigger] cur[q]).len() >= 1 by {
            if q < prev.len() {
                assert(cur[q] == prev[q]);
            }
        }
    }
}

/// Law: subsetting a version 2 `post` table keeps the glyph names. New glyph `i` has the
/// name that old glyph `gids[i]` had, except where an earlier kept glyph refers to a name
/// that the table lacks: such a name is written empty, and reading the names stops there.
pub proof fn lemma_post_names(d: Seq<u8>, gids: Seq<u16>)
    requires
        gids.len() <= 65535,
        spec_parse_post2(d) is Some,
        spec_post(d, gids) is Ok,
    ensures
        ({
            let (_, ix, nd) = spec_parse_post2(d).unwrap();
            let names = spec_names_from(nd, 0);
            let new = spec_post(d, gids).unwrap();
            &&& spec_parse_post2(new) is Some
            &&& forall|i: int|
                0 <= i < gids.len() && ((glyph_name(ix, names, gids[i] as int) matches Some(
                    GlyphName::Standard(_),
                )) || forall|j: int| 0 <= j < i ==> !missing_name(ix, names, gids[j] as int))
                    ==> #[trigger] glyph_name(
                    spec_parse_post2(new).unwrap().1,
                    spec_names_from(spec_parse_post2(new).unwrap().2, 0),
                    i,
                ) == glyph_name(ix, names, gids[i] as int)
        }),
{
    let (h, ix, nd) = spec_parse_post2(d).unwrap();
    let names = spec_names_from(nd, 0);
    let n = gids.len() as int;
    lemma_post_entries_shape(ix, names, gids, n);
    lemma_names_nonempty(nd, 0);
    let (ib, st, count) = spec_post_entries(ix, names, gids, n).unwrap();
    let l = custom_names(ix, names, gids, n);
    let new = h + u16_bytes(n) + ib + st;
    assert(spec_post(d, gids).unwrap() == new);
    assert(new[32] == u16_bytes(n)[0] && new[33] == u16_bytes(n)[1]);
    assert(be_u16(new[32], new[33]) == n);
    assert(new.subrange(0, 32) =~= h);
    assert(new.subrange(34, 34 + 2 * n) =~= ib);
    assert(new.subrange(34 + 2 * n, new.len() as int) =~= st);
    assert(be_u32(new[0], new[1], new[2], new[3]) == be_u32(d[0], d[1], d[2], d[3]));
    let names2 = spec_names_from(st, 0);
    assert(spec_parse_post2(new) == Some((h, ib, st)));
    assert(Seq::<u8>::empty() + pascal_strings(l) =~= st);
    assert forall|i: int|
        0 <= i < gids.len() && ((glyph_name(ix, names, gids[i] as int) matches Some(
            GlyphName::Standard(_),
        )) || forall|j: int| 0 <= j < i ==> !missing_name(ix, names, gids[j] as int))
            implies #[trigger] glyph_name(ib, names2, i) == glyph_name(ix, names, gids[i] as int) by {
        assert(be_u16(ib[2 * i], ib[2 * i + 1]) == match glyph_name(ix, names, gids[i] as int) {
            Some(GlyphName::Standard(index)) => index as int,
            _ => 258 + custom_names(ix, names, gids, i).len() as int,
        });
        assert(spec_post_entries(ix, names, gids, i + 1) is Ok) by {
            if spec_post_entries(ix, names, gids, i + 1) is Err {
                lemma_post_entries_err(ix, names, gids, i + 1, n);
            }
        }
        assert(glyph_name(ix, names, gids[i] as int) is Some);
        match glyph_name(ix, names, gids[i] as int) {
            Some(GlyphName::Custom(nm)) => {
                let c = custom_names(ix, names, gids, i).len() as int;
                lemma_custom_prefix(ix, names, gids, i, n);
                lemma_custom_nonempty(ix, names, gids, i);
                assert forall|q: int| 0 <= q < c implies (#[trigger] l[q]).len() >= 1 by {
                    assert(l[q] == custom_names(ix, names, gids, i)[q]);
                }
                if nm.len() == 0 {
                    lemma_pascal_read(Seq::empty(), l, c);
                    assert(nm =~= Seq::<u8>::empty());
                } else {
                    lemma_pascal_read(Seq::empty(), l, c + 1);
                }
            },
            _ => {},
        }
    }
}

} // verus!
