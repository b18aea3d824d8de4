//! The `name` table: only the Unicode names with the IDs 0 to 6 are kept (copyright, family,
//! subfamily, unique ID, full name, version and PostScript name), and equal strings are
//! stored once.
use crate::cff::remapper::bytes_eq;
use crate::read::{be_u16, lemma_has_rest, Readable, Reader};
use crate::write::{u16_bytes, Writeable, Writer};
use crate::Error;
use vstd::prelude::*;

verus! {

/// A name record.
#[derive(Clone, Copy, Debug)]
pub struct NameRecord {
    pub platform_id: u16,
    pub encoding_id: u16,
    pub language_id: u16,
    pub name_id: u16,
    pub length: u16,
    pub string_offset: u16,
}

/// Whether a name record is in a Unicode encoding.
pub open spec fn spec_is_unicode(r: NameRecord) -> bool {
    r.platform_id == 0 || (r.platform_id == 3 && (r.encoding_id == 0 || r.encoding_id == 1
        || r.encoding_id == 10))
}

impl NameRecord {
    /// Whether the name is in a Unicode encoding.
    pub fn is_unicode(&self) -> (res: bool)
        ensures
            res == spec_is_unicode(*self),
    {
        self.platform_id == 0 || (self.platform_id == 3 && (self.encoding_id == 0
            || self.encoding_id == 1 || self.encoding_id == 10))
    }
}

impl Readable for NameRecord {
    open spec fn spec_size() -> nat { 12 }

    open spec fn spec_parse(bytes: Seq<u8>) -> Option<NameRecord> {
        Some(
            NameRecord {
                platform_id: be_u16(bytes[0], bytes[1]) as u16,
                encoding_id: be_u16(bytes[2], bytes[3]) as u16,
                language_id: be_u16(bytes[4], bytes[5]) as u16,
                name_id: be_u16(bytes[6], bytes[7]) as u16,
                length: be_u16(bytes[8], bytes[9]) as u16,
                string_offset: be_u16(bytes[10], bytes[11]) as u16,
            },
        )
    }

    fn size() -> usize { 12 }

    fn read(r: &mut Reader) -> (res: Option<NameRecord>) {
        proof {
            lemma_has_rest(*r, 12nat);
        }
        let b = r.read_bytes(12)?;
        Some(NameRecord {
            platform_id: b[0] as u16 * 256 + b[1] as u16,
            encoding_id: b[2] as u16 * 256 + b[3] as u16,
            language_id: b[4] as u16 * 256 + b[5] as u16,
            name_id: b[6] as u16 * 256 + b[7] as u16,
            length: b[8] as u16 * 256 + b[9] as u16,
            string_offset: b[10] as u16 * 256 + b[11] as u16,
        })
    }
}

impl Writeable for NameRecord {
    open spec fn spec_bytes(&self) -> Seq<u8> {
        u16_bytes(self.platform_id as int) + u16_bytes(self.encoding_id as int) + u16_bytes(
            self.language_id as int,
        ) + u16_bytes(self.name_id as int) + u16_bytes(self.length as int) + u16_bytes(
            self.string_offset as int,
        )
    }

    fn write(&self, w: &mut Writer) {
        self.platform_id.write(w);
        self.encoding_id.write(w);
        self.language_id.write(w);
        self.name_id.write(w);
        self.length.write(w);
        self.string_offset.write(w);
        assert(w@ =~= old(w)@ + self.spec_bytes());
    }
}

/// A version 0 `name` table.
pub struct Version0Table {
    /// The name records.
    pub names: Vec<NameRecord>,
    /// The string storage.
    pub storage: Vec<u8>,
}

/// The `name` table in the form that is subsetted.
pub type Table = Version0Table;

/// Parse a version 0 `name` table: its records and its string storage.
pub open spec fn spec_parse_name(d: Seq<u8>) -> Option<(Seq<NameRecord>, Seq<u8>)> {
    if d.len() < 6 || be_u16(d[0], d[1]) != 0 {
        None
    } else {
        let count = be_u16(d[2], d[3]);
        if 6 + 12 * count > d.len() {
            None
        } else {
            Some(
                (
                    Seq::new(
                        count as nat,
                        |i: int| NameRecord::spec_parse(d.subrange(6 + 12 * i, 18 + 12 * i)).unwrap(),
                    ),
                    d.subrange(6 + 12 * count, d.len() as int),
                ),
            )
        }
    }
}

impl Version0Table {
    /// Parse a version 0 `name` table.
    pub fn parse(data: &[u8]) -> (res: Option<Self>)
        ensures
            match spec_parse_name(data@) {
                Some((names, storage)) => res matches Some(t) && t.names@ == names && t.storage@
                    == storage,
                None => res is None,
            },
    {
        let ghost d = data@;
        let mut r = Reader::new(data);
        let version = r.read::<u16>()?;
        if version != 0 {
            return None;
        }
        let count = r.read::<u16>()?;
        // The storage offset.
        r.read::<u16>()?;
        assert(r.spec_data().subrange(2, 4) =~= d.subrange(2, 4));
        let mut names: Vec<NameRecord> = Vec::new();
        let mut i: u16 = 0;
        while i < count
            invariant
                d == data@,
                r.spec_data() == d,
                6 <= d.len(),
                be_u16(d[0], d[1]) == 0,
                count == be_u16(d[2], d[3]),
                i <= count,
                r.spec_offset() == 6 + 12 * i,
                r.spec_offset() <= d.len(),
                names@.len() == i,
                forall|j: int|
                    0 <= j < i ==> #[trigger] names@[j] == NameRecord::spec_parse(
                        d.subrange(6 + 12 * j, 18 + 12 * j),
                    ).unwrap(),
            decreases count - i,
        {
            let ghost pos = r.spec_offset();
            let rec = r.read::<NameRecord>()?;
            assert(r.spec_data().subrange(pos, pos + 12) =~= d.subrange(pos, pos + 12));
            names.push(rec);
            i = i + 1;
        }
        let storage = vstd::slice::slice_to_vec(r.tail()?);
        let ghost recs = Seq::new(
            count as nat,
            |j: int| NameRecord::spec_parse(d.subrange(6 + 12 * j, 18 + 12 * j)).unwrap(),
        );
        assert(names@ =~= recs);
        Some(Version0Table { names, storage })
    }
}

/// Whether a name record is kept: Unicode, with a name ID up to 6.
pub open spec fn spec_keep(r: NameRecord) -> bool {
    spec_is_unicode(r) && r.name_id <= 6
}

/// The first string offset among strings seen before with the same bytes.
pub open spec fn spec_find_seen(seen: Seq<(Seq<u8>, u16)>, name: Seq<u8>) -> Option<u16>
    decreases seen.len(),
{
    if seen.len() == 0 {
        None
    } else {
        match spec_find_seen(seen.drop_last(), name) {
            Some(o) => Some(o),
            None => if seen.last().0 == name {
                Some(seen.last().1)
            } else {
                None
            },
        }
    }
}

/// The kept records among the first `k`, with their new offsets, the new storage and the
/// strings stored so far with their offsets; `None` when a string lies outside the storage
/// or the new storage outgrows 16-bit offsets.
pub open spec fn spec_name_subset(records: Seq<NameRecord>, storage: Seq<u8>, k: int) -> Option<
    (Seq<NameRecord>, Seq<u8>, Seq<(Seq<u8>, u16)>),
>
    decreases k,
{
    if k <= 0 {
        Some((Seq::empty(), Seq::empty(), Seq::empty()))
    } else {
        match spec_name_subset(records, storage, k - 1) {
            None => None,
            Some((names, st, seen)) => {
                let r = records[k - 1];
                if !spec_keep(r) {
                    Some((names, st, seen))
                } else if r.string_offset + r.length > storage.len() {
                    None
                } else {
                    let name = storage.subrange(
                        r.string_offset as int,
                        r.string_offset + r.length,
                    );
                    match spec_find_seen(seen, name) {
                        Some(o) => Some(
                            (names.push(NameRecord { string_offset: o, ..r }), st, seen),
                        ),
                        None => if st.len() + r.length > u16::MAX {
                            None
                        } else {
                            Some(
                                (
                                    names.push(NameRecord { string_offset: st.len() as u16, ..r }),
                                    st + name,
                                    seen.push((name, st.len() as u16)),
                                ),
                            )
                        },
                    }
                }
            },
        }
    }
}

/// Once subsetting fails, it fails for longer prefixes too.
proof fn lemma_name_subset_none(records: Seq<NameRecord>, storage: Seq<u8>, k: int, m: int)
    requires
        0 <= k <= m,
        spec_name_subset(records, storage, k) is None,
    ensures
        spec_name_subset(records, storage, m) is None,
    decreases m - k,
{
    if k < m {
        lemma_name_subset_none(records, storage, k, m - 1);
    }
}

/// Keep the Unicode names with IDs up to 6, and store each distinct string once.
pub fn subset_table(table: &Table) -> (res: Option<Table>)
    ensures
        match spec_name_subset(table.names@, table.storage@, table.names@.len() as int) {
            Some((names, storage, _)) => res matches Some(t) && t.names@ == names && t.storage@
                == storage,
            None => res is None,
        },
{
    let ghost recs = table.names@;
    let ghost st0 = table.storage@;
    let mut names: Vec<NameRecord> = Vec::new();
    let mut storage: Vec<u8> = Vec::new();
    let mut seen_names: Vec<Vec<u8>> = Vec::new();
    let mut seen_offsets: Vec<u16> = Vec::new();
    let mut i: usize = 0;
    while i < table.names.len()
        invariant
            i <= recs.len(),
            recs == table.names@,
            st0 == table.storage@,
            seen_names@.len() == seen_offsets@.len(),
            storage@.len() <= 65535,
            spec_name_subset(recs, st0, i as int) matches Some((ns, st, seen)) && names@ == ns
                && storage@ == st && seen.len() == seen_names@.len() && forall|j: int|
                0 <= j < seen.len() ==> #[trigger] seen[j] == (seen_names@[j]@, seen_offsets@[j]),
        decreases recs.len() - i,
    {
        let record = table.names[i];
        if record.is_unicode() && record.name_id <= 6 {
            let start = record.string_offset as usize;
            let end = start + record.length as usize;
            if end > table.storage.len() {
                proof {
                    lemma_name_subset_none(recs, st0, i + 1, recs.len() as int);
                }
                return None;
            }
            let name = &table.storage[start..end];
            let ghost seen = spec_name_subset(recs, st0, i as int).unwrap().2;
            // The first string stored with the same bytes, if there is one.
            let mut j: usize = 0;
            let mut found: Option<u16> = None;
            while j < seen_names.len()
                invariant
                    j <= seen_names@.len(),
                    seen_names@.len() == seen_offsets@.len(),
                    seen.len() == seen_names@.len(),
                    forall|q: int|
                        0 <= q < seen.len() ==> #[trigger] seen[q] == (
                            seen_names@[q]@,
                            seen_offsets@[q],
                        ),
                    found == spec_find_seen(seen.take(j as int), name@),
                    found is Some ==> found == spec_find_seen(seen, name@),
                decreases seen_names@.len() - j,
            {
                if found.is_none() && bytes_eq(seen_names[j].as_slice(), name) {
                    found = Some(seen_offsets[j]);
                }
                proof {
                    assert(seen.take(j + 1).drop_last() =~= seen.take(j as int));
                }
                j = j + 1;
                proof {
                    if found is Some {
                        lemma_find_seen_prefix(seen, name@, j as int);
                    }
                }
            }
            proof {
                assert(seen.take(j as int) =~= seen);
            }
            match found {
                Some(o) => {
                    names.push(NameRecord { string_offset: o, ..record });
                },
                None => {
                    let offset = storage.len();
                    if offset + record.length as usize > 65535 {
                        proof {
                            lemma_name_subset_none(recs, st0, i + 1, recs.len() as int);
                        }
                        return None;
                    }
                    let ghost old_storage = storage@;
                    let mut k: usize = 0;
                    while k < name.len()
                        invariant
                            k <= name@.len(),
                            storage@ == old_storage + name@.take(k as int),
                        decreases name@.len() - k,
                    {
                        storage.push(name[k]);
                        proof {
                            assert(name@.take(k + 1) =~= name@.take(k as int).push(name@[k as int]));
                        }
                        k = k + 1;
                    }
                    proof {
                        assert(name@.take(k as int) =~= name@);
                    }
                    names.push(NameRecord { string_offset: offset as u16, ..record });
                    seen_names.push(vstd::slice::slice_to_vec(name));
                    seen_offsets.push(offset as u16);
                },
            }
        }
        i = i + 1;
    }
    Some(Version0Table { names, storage })
}

/// A match found in a prefix of the seen strings is the first match of all of them.
proof fn lemma_find_seen_prefix(seen: Seq<(Seq<u8>, u16)>, name: Seq<u8>, j: int)
    requires
        0 <= j <= seen.len(),
        spec_find_seen(seen.take(j), name) is Some,
    ensures
        spec_find_seen(seen, name) == spec_find_seen(seen.take(j), name),
    decreases seen.len() - j,
{
    if j < seen.len() {
        assert(seen.take(j + 1).drop_last() =~= seen.take(j));
        lemma_find_seen_prefix(seen, name, j + 1);
    } else {
        assert(seen.take(j) =~= seen);
    }
}

/// The bytes of a sequence of name records.
pub open spec fn records_bytes(names: Seq<NameRecord>) -> Seq<u8>
    decreases names.len(),
{
    if names.len() == 0 {
        Seq::empty()
    } else {
        records_bytes(names.drop_last()) + names.last().spec_bytes()
    }
}

/// A version 0 `name` table with the given records and storage.
pub open spec fn spec_name_table(names: Seq<NameRecord>, storage: Seq<u8>) -> Seq<u8> {
    u16_bytes(0) + u16_bytes(names.len() as int) + u16_bytes(6 + 12 * names.len() as int) + records_bytes(
        names,
    ) + storage
}

/// Write a version 0 `name` table; there can be at most 5460 records, so that the storage
/// offset fits 16 bits.
pub fn write_table(table: &Table, w: &mut Writer) -> (res: Result<(), Error>)
    ensures
        table.names@.len() > 5460 ==> res == Err::<(), Error>(Error::OverflowError),
        table.names@.len() <= 5460 ==> res is Ok && final(w)@ == old(w)@ + spec_name_table(
            table.names@,
            table.storage@,
        ),
{
    if table.names.len() > 5460 {
        return Err(Error::OverflowError);
    }
    let count = table.names.len() as u16;
    // The version.
    0u16.write(w);
    count.write(w);
    // The storage offset.
    (6 + count * 12).write(w);
    let ghost head = w@;
    let mut i: usize = 0;
    while i < table.names.len()
        invariant
            i <= table.names@.len(),
            w@ == head + records_bytes(table.names@.take(i as int)),
        decreases table.names@.len() - i,
    {
        table.names[i].write(w);
        proof {
            assert(table.names@.take(i + 1).drop_last() =~= table.names@.take(i as int));
        }
        i = i + 1;
    }
    assert(table.names@.take(i as int) =~= table.names@);
    w.extend(table.storage.as_slice());
    Ok(())
}

/// The new `name` table: unchanged unless it is a version 0 table, which is subsetted.
pub open spec fn spec_name(d: Seq<u8>) -> Result<Seq<u8>, Error> {
    if d.len() < 2 {
        Err(Error::MalformedFont)
    } else if be_u16(d[0], d[1]) != 0 {
        Ok(d)
    } else {
        match spec_parse_name(d) {
            None => Err(Error::MalformedFont),
            Some((records, storage)) => match spec_name_subset(records, storage, records.len() as int) {
                None => Err(Error::SubsetError),
                Some((names, st, _)) => if names.len() > 5460 {
                    Err(Error::OverflowError)
                } else {
                    Ok(spec_name_table(names, st))
                },
            },
        }
    }
}

/// Subset the `name` table.
pub fn subset(name: &[u8]) -> (res: Result<Vec<u8>, Error>)
    ensures
        match spec_name(name@) {
            Ok(b) => res matches Ok(v) && v@ == b,
            Err(e) => res matches Err(e2) && e2 == e,
        },
{
    let mut r = Reader::new(name);
    let version = match r.read::<u16>() {
        Some(v) => v,
        None => return Err(Error::MalformedFont),
    };
    assert(r.spec_data().subrange(0, 2) =~= name@.subrange(0, 2));
    // Version 1 does not seem to be used at all, so it is not subsetted.
    if version != 0 {
        return Ok(vstd::slice::slice_to_vec(name));
    }
    let table = match Version0Table::parse(name) {
        Some(t) => t,
        None => return Err(Error::MalformedFont),
    };
    let subsetted = match subset_table(&table) {
        Some(t) => t,
        None => return Err(Error::SubsetError),
    };
    let mut w = Writer::new();
    write_table(&subsetted, &mut w)?;
    Ok(w.finish())
}

/// A string found among those seen is one of them.
proof fn lemma_find_seen_in(seen: Seq<(Seq<u8>, u16)>, name: Seq<u8>)
    ensures
        spec_find_seen(seen, name) matches Some(o) ==> exists|i: int|
            0 <= i < seen.len() && #[trigger] seen[i] == (name, o),
    decreases seen.len(),
{
    if seen.len() > 0 {
        lemma_find_seen_in(seen.drop_last(), name);
        match spec_find_seen(seen.drop_last(), name) {
            Some(o) => {
                let i = choose|i: int|
                    0 <= i < seen.drop_last().len() && #[trigger] seen.drop_last()[i] == (name, o);
                assert(seen[i] == (name, o));
            },
            None => {
                if seen.last().0 == name {
                    assert(seen[seen.len() - 1] == (name, seen.last().1));
                }
            },
        }
    }
}

/// Whether the new record `n` is the old record `r` with another string offset, pointing at
/// the same string in the new storage `st` as `r` does in the old storage.
pub open spec fn same_name(n: NameRecord, st: Seq<u8>, r: NameRecord, storage: Seq<u8>) -> bool {
    &&& n == (NameRecord { string_offset: n.string_offset, ..r })
    &&& n.string_offset + n.length <= st.len()
    &&& r.string_offset + r.length <= storage.len()
    &&& st.subrange(n.string_offset as int, n.string_offset + n.length) == storage.subrange(
        r.string_offset as int,
        r.string_offset + r.length,
    )
}

/// Law: subsetting the `name` table keeps the strings of the names it keeps. Each new record
/// is a kept old record (Unicode, with a name ID up to 6) pointing into the new storage at
/// the string it pointed to in the old one.
pub proof fn lemma_name_subset_strings(records: Seq<NameRecord>, storage: Seq<u8>, k: int)
    requires
        0 <= k <= records.len(),
        spec_name_subset(records, storage, k) is Some,
    ensures
        ({
            let (names, st, seen) = spec_name_subset(records, storage, k).unwrap();
            &&& forall|i: int|
                0 <= i < names.len() ==> exists|j: int|
                    0 <= j < k && spec_keep(records[j]) && same_name(
                        #[trigger] names[i],
                        st,
                        records[j],
                        storage,
                    )
            &&& forall|i: int|
                0 <= i < seen.len() ==> (#[trigger] seen[i]).1 + seen[i].0.len() <= st.len()
                    && st.subrange(seen[i].1 as int, seen[i].1 + seen[i].0.len()) == seen[i].0
        }),
    decreases k,
{
    if k > 0 {
        lemma_name_subset_strings(records, storage, k - 1);
        let (names, st, seen) = spec_name_subset(records, storage, k - 1).unwrap();
        let r = records[k - 1];
        if spec_keep(r) {
            let name = storage.subrange(r.string_offset as int, r.string_offset + r.length);
            let (names2, st2, seen2) = spec_name_subset(records, storage, k).unwrap();
            lemma_find_seen_in(seen, name);
            match spec_find_seen(seen, name) {
                Some(o) => {
                    let q = choose|q: int| 0 <= q < seen.len() && #[trigger] seen[q] == (name, o);
                    let n = NameRecord { string_offset: o, ..r };
                    assert(names2 == names.push(n));
                    assert(same_name(n, st, r, storage));
                    assert forall|i: int| 0 <= i < names2.len() implies exists|j: int|
                        0 <= j < k && spec_keep(records[j]) && same_name(
                            #[trigger] names2[i],
                            st2,
                            records[j],
                            storage,
                        ) by {
                        if i == names.len() {
                            assert(same_name(names2[i], st2, records[k - 1], storage));
                        } else {
                            assert(names2[i] == names[i]);
                        }
                    }
                },
                None => {
                    let n = NameRecord { string_offset: st.len() as u16, ..r };
                    assert(names2 == names.push(n));
                    assert(st2 == st + name);
                    assert(seen2 == seen.push((name, st.len() as u16)));
                    assert(st2.subrange(st.len() as int, st2.len() as int) =~= name);
                    assert forall|i: int| 0 <= i < names2.len() implies exists|j: int|
                        0 <= j < k && spec_keep(records[j]) && same_name(
                            #[trigger] names2[i],
                            st2,
                            records[j],
                            storage,
                        ) by {
                        if i == names.len() {
                            assert(same_name(names2[i], st2, records[k - 1], storage));
                        } else {
                            assert(names2[i] == names[i]);
                            let j = choose|j: int|
                                0 <= j < k - 1 && spec_keep(records[j]) && same_name(
                                    names[i],
                                    st,
                                    records[j],
                                    storage,
                                );
                            let a = names[i].string_offset as int;
                            assert(st2.subrange(a, a + names[i].length) =~= st.subrange(
                                a,
                                a + names[i].length,
                            ));
                        }
                    }
                    assert forall|i: int| 0 <= i < seen2.len() implies (#[trigger] seen2[i]).1
                        + seen2[i].0.len() <= st2.len() && st2.subrange(
                        seen2[i].1 as int,
                        seen2[i].1 + seen2[i].0.len(),
                    ) == seen2[i].0 by {
                        if i < seen.len() {
                            assert(seen2[i] == seen[i]);
                            let a = seen[i].1 as int;
                            assert(st2.subrange(a, a + seen[i].0.len()) =~= st.subrange(
                                a,
                                a + seen[i].0.len(),
                            ));
                        }
                    }
                },
            }
        }
    }
}

/// Law: subsetting the `name` table keeps every Unicode name with a name ID from 0 to 6
/// (copyright, family, subfamily, unique ID, full name, version and PostScript name). For
/// each such record of the input (on the Unicode platform, or on the Windows platform with
/// the symbol, BMP or full repertoire encoding), the output holds a record with the same
/// platform, encoding, language and name ID whose string has the same bytes.
pub proof fn lemma_name_subset_keeps(records: Seq<NameRecord>, storage: Seq<u8>, k: int)
    requires
        0 <= k <= records.len(),
        spec_name_subset(records, storage, k) is Some,
    ensures
        ({
            let (names, st, seen) = spec_name_subset(records, storage, k).unwrap();
            forall|j: int|
                0 <= j < k && ((#[trigger] records[j]).platform_id == 0 || (records[j].platform_id
                    == 3 && (records[j].encoding_id == 0 || records[j].encoding_id == 1
                    || records[j].encoding_id == 10))) && records[j].name_id <= 6 ==> exists|i: int|
                    0 <= i < names.len() && same_name(names[i], st, records[j], storage)
        }),
    decreases k,
{
    if k > 0 {
        if spec_name_subset(records, storage, k - 1) is None {
            assert(spec_name_subset(records, storage, k) is None);
        }
        lemma_name_subset_keeps(records, storage, k - 1);
        lemma_name_subset_strings(records, storage, k - 1);
        let (names, st, seen) = spec_name_subset(records, storage, k - 1).unwrap();
        let (names2, st2, seen2) = spec_name_subset(records, storage, k).unwrap();
        let r = records[k - 1];
        if spec_keep(r) {
            let name = storage.subrange(r.string_offset as int, r.string_offset + r.length);
            lemma_find_seen_in(seen, name);
            match spec_find_seen(seen, name) {
                Some(o) => {
                    let q = choose|q: int| 0 <= q < seen.len() && #[trigger] seen[q] == (name, o);
                    let n = NameRecord { string_offset: o, ..r };
                    assert(names2 == names.push(n) && st2 == st);
                    assert(same_name(n, st, r, storage));
                    assert forall|j: int|
                        0 <= j < k && ((#[trigger] records[j]).platform_id == 0 || (
                        records[j].platform_id == 3 && (records[j].encoding_id == 0
                            || records[j].encoding_id == 1 || records[j].encoding_id == 10)))
                            && records[j].name_id <= 6 implies exists|i: int|
                        0 <= i < names2.len() && same_name(names2[i], st2, records[j], storage) by {
                        if j == k - 1 {
                            assert(names2[names.len() as int] == n);
                        } else {
                            let i = choose|i: int|
                                0 <= i < names.len() && same_name(names[i], st, records[j], storage);
                            assert(names2[i] == names[i]);
                        }
                    }
                },
                None => {
                    let n = NameRecord { string_offset: st.len() as u16, ..r };
                    assert(names2 == names.push(n));
                    assert(st2 == st + name);
                    assert(st2.subrange(st.len() as int, st2.len() as int) =~= name);
                    assert(same_name(n, st2, r, storage));
                    assert forall|j: int|
                        0 <= j < k && ((#[trigger] records[j]).platform_id == 0 || (
                        records[j].platform_id == 3 && (records[j].encoding_id == 0
                            || records[j].encoding_id == 1 || records[j].encoding_id == 10)))
                            && records[j].name_id <= 6 implies exists|i: int|
                        0 <= i < names2.len() && same_name(names2[i], st2, records[j], storage) by {
                        if j == k - 1 {
                            assert(names2[names.len() as int] == n);
                        } else {
                            let i = choose|i: int|
                                0 <= i < names.len() && same_name(names[i], st, records[j], storage);
                            assert(names2[i] == names[i]);
                            let a = names[i].string_offset as int;
                            assert(st2.subrange(a, a + names[i].length) =~= st.subrange(
                                a,
                                a + names[i].length,
                            ));
                        }
                    }
                },
            }
        } else {
            assert(names2 == names && st2 == st);
        }
    }
}

} // verus!
