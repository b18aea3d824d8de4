//! Subsetting a whole font: the outline tables (`glyf` and `loca` from the new glyph
//! descriptions, or `CFF `), then the required tables `head`, `hmtx` and `hhea`, `maxp`,
//! `name` and `post`, and finally a new font file made of them.
//!
//! The tables that are not needed in a PDF (`cmap`, `OS/2`, `gasp`, `VORG`, ...) are left
//! out. The outlines of the new glyphs and their metrics come from an outline library; they
//! are handed in as [`GlyphData`], one for each glyph of the subset in the new order.
use crate::cff;
use crate::face::{
    construct, is_sorting, parse, spec_construct, spec_parse_face, spec_table,
    table_offset, tables_view, tags_distinct, Face, FontKind, TableRecord, CFF, CVT, FPGM, GLYF,
    HEAD, HHEA, HMTX, LOCA, MAXP, NAME, POST, PREP,
};
use crate::glyf::{self, glyf_size, spec_glyf, spec_loca, spec_long_loca};
use crate::head::{self, spec_head};
use crate::hmtx::{spec_hhea, spec_hmtx, subset_hhea, subset_hmtx, Metrics};
use crate::maxp::{self, spec_maxp, MaxpData};
use crate::name::{self, spec_name};
use crate::post::{self, spec_post};
use crate::remapper::GlyphRemapper;
use crate::Error;
use vstd::prelude::*;

verus! {

/// What the outline library computes for a glyph of the subset.
#[derive(Debug)]
pub struct GlyphData {
    /// The glyph's description for the `glyf` table, as a simple glyph.
    pub description: Vec<u8>,
    /// The number of points of its outline.
    pub num_points: u16,
    /// The number of contours of its outline.
    pub num_contours: u16,
    /// Its horizontal metrics.
    pub metrics: Metrics,
}

/// The glyph descriptions, by their bytes.
pub open spec fn descriptions(glyphs: Seq<GlyphData>) -> Seq<Seq<u8>> {
    glyphs.map_values(|g: GlyphData| g.description@)
}

/// The horizontal metrics of the glyphs.
pub open spec fn metrics_of(glyphs: Seq<GlyphData>) -> Seq<Metrics> {
    glyphs.map_values(|g: GlyphData| g.metrics)
}

/// The largest number of points of a glyph (0 for no glyph).
pub open spec fn max_points(glyphs: Seq<GlyphData>) -> u16
    decreases glyphs.len(),
{
    if glyphs.len() == 0 {
        0
    } else {
        let m = max_points(glyphs.drop_last());
        if glyphs.last().num_points > m {
            glyphs.last().num_points
        } else {
            m
        }
    }
}

/// The largest number of contours of a glyph (0 for no glyph).
pub open spec fn max_contours(glyphs: Seq<GlyphData>) -> u16
    decreases glyphs.len(),
{
    if glyphs.len() == 0 {
        0
    } else {
        let m = max_contours(glyphs.drop_last());
        if glyphs.last().num_contours > m {
            glyphs.last().num_contours
        } else {
            m
        }
    }
}

/// The `maxp` limits of simple glyphs: their largest numbers of points and contours, one
/// zone and a component depth of one, and nothing else.
pub open spec fn glyph_limits(glyphs: Seq<GlyphData>) -> MaxpData {
    MaxpData {
        max_points: max_points(glyphs),
        max_contours: max_contours(glyphs),
        max_composite_points: 0,
        max_composite_contours: 0,
        max_zones: 1,
        max_twilight_points: 0,
        max_storage: 0,
        max_function_defs: 0,
        max_instruction_defs: 0,
        max_stack_elements: 0,
        max_size_of_instructions: 0,
        max_component_elements: 0,
        max_component_depth: 1,
    }
}

/// The tables followed by a copy of the table with `tag`, if the font has one.
pub open spec fn copy_table(ts: Seq<(u32, Seq<u8>)>, d: Seq<u8>, recs: Seq<TableRecord>, tag: u32) -> Seq<
    (u32, Seq<u8>),
> {
    match spec_table(d, recs, tag) {
        Some(t) => ts.push((tag, t)),
        None => ts,
    }
}

/// The tables followed by `(tag, data)`, or the error that making `data` gave.
pub open spec fn then_push(ts: Seq<(u32, Seq<u8>)>, tag: u32, data: Result<Seq<u8>, Error>) -> Result<
    Seq<(u32, Seq<u8>)>,
    Error,
> {
    match data {
        Ok(b) => Ok(ts.push((tag, b))),
        Err(e) => Err(e),
    }
}

/// The kind of outlines of a font: TrueType if it has a `glyf` table, else CFF if it has a
/// `CFF ` table.
pub open spec fn spec_outline_kind(d: Seq<u8>, recs: Seq<TableRecord>) -> Option<FontKind> {
    if spec_table(d, recs, GLYF) is Some {
        Some(FontKind::TrueType)
    } else if spec_table(d, recs, CFF) is Some {
        Some(FontKind::Cff)
    } else {
        None
    }
}

/// The outline tables for TrueType outlines: `loca` and `glyf`, written from the new glyph
/// descriptions, and the unchanged `cvt `, `fpgm` and `prep` tables; whether the long `loca`
/// format is used; and the `maxp` limits of the new glyphs.
pub open spec fn truetype_tables(d: Seq<u8>, recs: Seq<TableRecord>, glyphs: Seq<GlyphData>) -> Result<
    (Seq<(u32, Seq<u8>)>, bool, Option<MaxpData>),
    Error,
> {
    let es = descriptions(glyphs);
    let n = es.len() as int;
    if glyf_size(es, n) > usize::MAX {
        Err(Error::OverflowError)
    } else {
        let long = spec_long_loca(es);
        let ts = seq![(LOCA, spec_loca(es, long, n + 1)), (GLYF, spec_glyf(es, long, n))];
        Ok(
            (
                copy_table(copy_table(copy_table(ts, d, recs, CVT), d, recs, FPGM), d, recs, PREP),
                long,
                Some(glyph_limits(glyphs)),
            ),
        )
    }
}

/// The outline tables for CFF outlines: the subsetted `CFF ` table.
pub open spec fn cff_tables(d: Seq<u8>, recs: Seq<TableRecord>, gids: Seq<u16>) -> Result<
    (Seq<(u32, Seq<u8>)>, bool, Option<MaxpData>),
    Error,
> {
    match spec_table(d, recs, CFF) {
        None => Ok((Seq::empty(), false, None)),
        Some(c) => match cff::spec_cff_subset(c, gids) {
            Ok(b) => Ok((seq![(CFF, b)], false, None)),
            Err(e) => Err(e),
        },
    }
}

/// The outline tables of the subset, whether the long `loca` format is used, and the
/// `maxp` limits of the new glyphs, if they are given.
#[verifier::opaque]
pub open spec fn outline_tables(
    d: Seq<u8>,
    recs: Seq<TableRecord>,
    kind: FontKind,
    gids: Seq<u16>,
    glyphs: Seq<GlyphData>,
) -> Result<(Seq<(u32, Seq<u8>)>, bool, Option<MaxpData>), Error> {
    if kind == FontKind::TrueType {
        truetype_tables(d, recs, glyphs)
    } else {
        cff_tables(d, recs, gids)
    }
}

/// The `head` step: the `head` table with the `loca` format set.
pub open spec fn step_head(ts: Seq<(u32, Seq<u8>)>, d: Seq<u8>, recs: Seq<TableRecord>, long: bool) -> Result<
    Seq<(u32, Seq<u8>)>,
    Error,
> {
    match spec_table(d, recs, HEAD) {
        Some(h) => then_push(ts, HEAD, spec_head(h, long)),
        None => Ok(ts),
    }
}

/// The `hmtx` step: the metrics of the new glyphs, and the `hhea` table, which must be
/// there, with their number.
pub open spec fn step_hmtx(
    ts: Seq<(u32, Seq<u8>)>,
    d: Seq<u8>,
    recs: Seq<TableRecord>,
    glyphs: Seq<GlyphData>,
) -> Result<Seq<(u32, Seq<u8>)>, Error> {
    match spec_table(d, recs, HMTX) {
        Some(_) => {
            let ts1 = ts.push((HMTX, spec_hmtx(metrics_of(glyphs))));
            match spec_table(d, recs, HHEA) {
                Some(h) => then_push(ts1, HHEA, spec_hhea(h, glyphs.len() as u16)),
                None => Err(Error::MalformedFont),
            }
        },
        None => Ok(ts),
    }
}

/// The `maxp` step.
pub open spec fn step_maxp(
    ts: Seq<(u32, Seq<u8>)>,
    d: Seq<u8>,
    recs: Seq<TableRecord>,
    kind: FontKind,
    num_gids: u16,
    custom: Option<MaxpData>,
) -> Result<Seq<(u32, Seq<u8>)>, Error> {
    match spec_table(d, recs, MAXP) {
        Some(m) => then_push(ts, MAXP, spec_maxp(m, kind, num_gids, custom)),
        None => Ok(ts),
    }
}

/// The `name` step.
pub open spec fn step_name(ts: Seq<(u32, Seq<u8>)>, d: Seq<u8>, recs: Seq<TableRecord>) -> Result<
    Seq<(u32, Seq<u8>)>,
    Error,
> {
    match spec_table(d, recs, NAME) {
        Some(n) => then_push(ts, NAME, spec_name(n)),
        None => Ok(ts),
    }
}

/// The `post` step.
pub open spec fn step_post(
    ts: Seq<(u32, Seq<u8>)>,
    d: Seq<u8>,
    recs: Seq<TableRecord>,
    gids: Seq<u16>,
) -> Result<Seq<(u32, Seq<u8>)>, Error> {
    match spec_table(d, recs, POST) {
        Some(p) => then_push(ts, POST, spec_post(p, gids)),
        None => Ok(ts),
    }
}

/// The required tables after the outline tables `ts`, in order; the first error stops.
#[verifier::opaque]
pub open spec fn required_tables(
    ts: Seq<(u32, Seq<u8>)>,
    d: Seq<u8>,
    recs: Seq<TableRecord>,
    kind: FontKind,
    long: bool,
    custom: Option<MaxpData>,
    gids: Seq<u16>,
    glyphs: Seq<GlyphData>,
) -> Result<Seq<(u32, Seq<u8>)>, Error> {
    match step_head(ts, d, recs, long) {
        Err(e) => Err(e),
        Ok(ts) => match step_hmtx(ts, d, recs, glyphs) {
            Err(e) => Err(e),
            Ok(ts) => match step_maxp(ts, d, recs, kind, gids.len() as u16, custom) {
                Err(e) => Err(e),
                Ok(ts) => match step_name(ts, d, recs) {
                    Err(e) => Err(e),
                    Ok(ts) => step_post(ts, d, recs, gids),
                },
            },
        },
    }
}

/// The kind of a face and the tables of its subset, from its table records: the kind of
/// outlines, the outline tables and the required tables.
#[verifier::opaque]
pub open spec fn spec_face_subset(
    d: Seq<u8>,
    recs: Seq<TableRecord>,
    gids: Seq<u16>,
    glyphs: Seq<GlyphData>,
) -> Result<(FontKind, Seq<(u32, Seq<u8>)>), Error> {
    match spec_outline_kind(d, recs) {
        None => Err(Error::UnknownKind),
        Some(kind) => match outline_tables(d, recs, kind, gids, glyphs) {
            Err(e) => Err(e),
            Ok((ts, long, custom)) => match required_tables(
                ts,
                d,
                recs,
                kind,
                long,
                custom,
                gids,
                glyphs,
            ) {
                Err(e) => Err(e),
                Ok(all) => Ok((kind, all)),
            },
        },
    }
}

/// The kind of the font and the tables of its subset, before they are put together into a
/// font file: those of the face with the table records of font `index` of the file `d`.
pub open spec fn spec_subset(d: Seq<u8>, index: u32, gids: Seq<u16>, glyphs: Seq<GlyphData>) -> Result<
    (FontKind, Seq<(u32, Seq<u8>)>),
    Error,
> {
    match spec_parse_face(d, index) {
        Err(e) => Err(e),
        Ok(recs) => spec_face_subset(d, recs, gids, glyphs),
    }
}

/// No table has the tag.
pub open spec fn no_tag(ts: Seq<(u32, Seq<u8>)>, tag: u32) -> bool {
    forall|i: int| 0 <= i < ts.len() ==> ts[i].0 != tag
}

/// Each table's tag is in `tags`.
pub open spec fn tags_within(ts: Seq<(u32, Seq<u8>)>, tags: Set<u32>) -> bool {
    forall|i: int| 0 <= i < ts.len() ==> tags.contains(#[trigger] ts[i].0)
}

/// A `head` table is long enough to hold the checksum adjustment.
pub open spec fn head_long_enough(ts: Seq<(u32, Seq<u8>)>) -> bool {
    forall|i: int| 0 <= i < ts.len() && (#[trigger] ts[i]).0 == HEAD ==> ts[i].1.len() >= 52
}

/// A table with a new tag keeps the tags distinct.
proof fn lemma_push_distinct(ts: Seq<(u32, Seq<u8>)>, t: (u32, Seq<u8>))
    requires
        tags_distinct(ts),
        no_tag(ts, t.0),
    ensures
        tags_distinct(ts.push(t)),
{
}

/// Push a table.
fn push_table(tables: &mut Vec<(u32, Vec<u8>)>, tag: u32, data: Vec<u8>)
    ensures
        tables_view(final(tables)@) == tables_view(old(tables)@).push((tag, data@)),
{
    let ghost before = tables@;
    tables.push((tag, data));
    proof {
        assert(tables_view(tables@) =~= tables_view(before).push((tag, data@)));
    }
}

/// Push the table with `tag` of the face unchanged, if the face has one.
fn copy_face_table(face: &Face, tables: &mut Vec<(u32, Vec<u8>)>, tag: u32)
    ensures
        tables_view(final(tables)@) == copy_table(
            tables_view(old(tables)@),
            face.data@,
            face.records@,
            tag,
        ),
        tables_view(final(tables)@) == tables_view(old(tables)@) || exists|t: Seq<u8>|
            tables_view(final(tables)@) == tables_view(old(tables)@).push((tag, t)),
{
    if let Some(data) = face.table(tag) {
        push_table(tables, tag, vstd::slice::slice_to_vec(data));
    }
}

/// The largest numbers of points and contours of the glyphs.
fn glyph_maxima(glyphs: &[GlyphData]) -> (res: (u16, u16))
    ensures
        res.0 == max_points(glyphs@),
        res.1 == max_contours(glyphs@),
{
    let mut points: u16 = 0;
    let mut contours: u16 = 0;
    let mut i: usize = 0;
    while i < glyphs.len()
        invariant
            i <= glyphs@.len(),
            points == max_points(glyphs@.take(i as int)),
            contours == max_contours(glyphs@.take(i as int)),
        decreases glyphs@.len() - i,
    {
        proof {
            assert(glyphs@.take(i + 1).drop_last() =~= glyphs@.take(i as int));
            assert(glyphs@.take(i + 1).last() == glyphs@[i as int]);
        }
        if glyphs[i].num_points > points {
            points = glyphs[i].num_points;
        }
        if glyphs[i].num_contours > contours {
            contours = glyphs[i].num_contours;
        }
        i = i + 1;
    }
    assert(glyphs@.take(i as int) =~= glyphs@);
    (points, contours)
}

/// The `maxp` limits of the glyphs.
fn limits_of(glyphs: &[GlyphData]) -> (res: MaxpData)
    ensures
        res == glyph_limits(glyphs@),
{
    let (points, contours) = glyph_maxima(glyphs);
    let mut limits = MaxpData::new();
    limits.max_points = points;
    limits.max_contours = contours;
    limits
}

/// The tags of the outline tables.
pub open spec fn outline_tags() -> Set<u32> {
    set![LOCA, GLYF, CVT, FPGM, PREP, CFF]
}

/// Tables as they are built up: distinct tags from `tags`, a long enough `head` table, and
/// at most `n` of them.
pub open spec fn built(ts: Seq<(u32, Seq<u8>)>, tags: Set<u32>, n: int) -> bool {
    &&& tags_distinct(ts)
    &&& tags_within(ts, tags)
    &&& head_long_enough(ts)
    &&& ts.len() <= n
}

/// A table with a tag outside `tags` keeps the tables built, with its tag added.
proof fn lemma_built_push(ts: Seq<(u32, Seq<u8>)>, tags: Set<u32>, n: int, t: (u32, Seq<u8>))
    requires
        built(ts, tags, n),
        !tags.contains(t.0),
        t.0 == HEAD ==> t.1.len() >= 52,
    ensures
        built(ts.push(t), tags.insert(t.0), n + 1),
{
    assert forall|i: int| 0 <= i < ts.len() implies ts[i].0 != t.0 by {
        assert(tags.contains(ts[i].0));
    }
    lemma_push_distinct(ts, t);
    let ts2 = ts.push(t);
    assert forall|i: int| 0 <= i < ts2.len() implies tags.insert(t.0).contains(#[trigger] ts2[i].0) by {
        if i < ts.len() {
            assert(ts2[i] == ts[i]);
            assert(tags.contains(ts[i].0));
        }
    }
}

/// Tables built with some tags are built with more tags.
proof fn lemma_built_more(ts: Seq<(u32, Seq<u8>)>, tags: Set<u32>, n: int, more: Set<u32>, m: int)
    requires
        built(ts, tags, n),
        tags.subset_of(more),
        n <= m,
    ensures
        built(ts, more, m),
{
    assert forall|i: int| 0 <= i < ts.len() implies more.contains(#[trigger] ts[i].0) by {
        assert(tags.contains(ts[i].0));
    }
}

/// The outline tables for TrueType outlines.
fn truetype_outlines(face: &Face, glyphs: &[GlyphData]) -> (res: Result<
    (Vec<(u32, Vec<u8>)>, bool, Option<MaxpData>),
    Error,
>)
    ensures
        match truetype_tables(face.data@, face.records@, glyphs@) {
            Ok((ts, long, custom)) => res matches Ok((v, l, c)) && tables_view(v@) == ts && l
                == long && c == custom,
            Err(e) => res matches Err(e2) && e2 == e,
        },
        res matches Ok((v, _, _)) ==> 1 <= v@.len() && built(tables_view(v@), outline_tags(), 5),
{
    let mut entries: Vec<Vec<u8>> = Vec::new();
    let mut i: usize = 0;
    while i < glyphs.len()
        invariant
            i <= glyphs@.len(),
            glyf::entries_view(entries@) == descriptions(glyphs@.take(i as int)),
        decreases glyphs@.len() - i,
    {
        let e = vstd::slice::slice_to_vec(glyphs[i].description.as_slice());
        let ghost before = entries@;
        entries.push(e);
        proof {
            assert(glyf::entries_view(entries@) =~= glyf::entries_view(before).push(e@));
            assert(descriptions(glyphs@.take(i + 1)) =~= descriptions(glyphs@.take(i as int)).push(
                glyphs@[i as int].description@,
            ));
        }
        i = i + 1;
    }
    assert(glyphs@.take(i as int) =~= glyphs@);
    let (loca, glyf_data, long) = match glyf::subset(&entries) {
        Ok(r) => r,
        Err(e) => return Err(e),
    };
    let ghost es = descriptions(glyphs@);
    let ghost n = es.len() as int;
    let mut tables: Vec<(u32, Vec<u8>)> = Vec::new();
    push_table(&mut tables, LOCA, loca);
    push_table(&mut tables, GLYF, glyf_data);
    proof {
        let ts = tables_view(tables@);
        assert(ts =~= seq![(LOCA, spec_loca(es, long, n + 1)), (GLYF, spec_glyf(es, long, n))]);
        assert(built(ts, set![LOCA, GLYF], 2)) by {
            assert(tags_within(ts, set![LOCA, GLYF]));
        }
    }
    let ghost t2 = tables_view(tables@);
    let ghost s2 = set![LOCA, GLYF];
    copy_face_table(face, &mut tables, CVT);
    proof {
        if tables_view(tables@) != t2 {
            let t = choose|t: Seq<u8>| tables_view(tables@) == t2.push((CVT, t));
            lemma_built_push(t2, s2, 2, (CVT, t));
        } else {
            lemma_built_more(t2, s2, 2, s2.insert(CVT), 3);
        }
    }
    let ghost t3 = tables_view(tables@);
    let ghost s3 = s2.insert(CVT);
    copy_face_table(face, &mut tables, FPGM);
    proof {
        if tables_view(tables@) != t3 {
            let t = choose|t: Seq<u8>| tables_view(tables@) == t3.push((FPGM, t));
            lemma_built_push(t3, s3, 3, (FPGM, t));
        } else {
            lemma_built_more(t3, s3, 3, s3.insert(FPGM), 4);
        }
    }
    let ghost t4 = tables_view(tables@);
    let ghost s4 = s3.insert(FPGM);
    copy_face_table(face, &mut tables, PREP);
    proof {
        if tables_view(tables@) != t4 {
            let t = choose|t: Seq<u8>| tables_view(tables@) == t4.push((PREP, t));
            lemma_built_push(t4, s4, 4, (PREP, t));
        } else {
            lemma_built_more(t4, s4, 4, s4.insert(PREP), 5);
        }
        lemma_built_more(tables_view(tables@), s4.insert(PREP), 5, outline_tags(), 5);
    }
    let limits = limits_of(glyphs);
    Ok((tables, long, Some(limits)))
}

/// The outline tables for CFF outlines, from the face's `CFF ` table.
fn cff_outlines(cff_table: &[u8], mapper: &GlyphRemapper) -> (res: Result<
    (Vec<(u32, Vec<u8>)>, bool, Option<MaxpData>),
    Error,
>)
    requires
        mapper.wf(),
        !mapper.spec_is_identity(),
    ensures
        match cff::spec_cff_subset(cff_table@, mapper.spec_gids()) {
            Ok(b) => res matches Ok((v, l, c)) && tables_view(v@) == seq![(CFF, b)] && !l && c
                is None,
            Err(e) => res matches Err(e2) && e2 == e,
        },
        res matches Ok((v, _, _)) ==> 1 <= v@.len() && built(tables_view(v@), outline_tags(), 5),
{
    let sub = match cff::subset(cff_table, mapper) {
        Ok(b) => b,
        Err(e) => return Err(e),
    };
    let mut tables: Vec<(u32, Vec<u8>)> = Vec::new();
    push_table(&mut tables, CFF, sub);
    proof {
        let ts = tables_view(tables@);
        assert(ts =~= seq![(CFF, sub@)]);
        assert(tags_within(ts, outline_tags()));
    }
    Ok((tables, false, None))
}

/// The tags of the tables after the `head` step.
pub open spec fn tags_after_head() -> Set<u32> {
    outline_tags().insert(HEAD)
}

/// The tags of the tables after the `hmtx` step.
pub open spec fn tags_after_hmtx() -> Set<u32> {
    tags_after_head().insert(HMTX).insert(HHEA)
}

/// The tags of the tables after the `maxp` step.
pub open spec fn tags_after_maxp() -> Set<u32> {
    tags_after_hmtx().insert(MAXP)
}

/// The tags of the tables after the `name` step.
pub open spec fn tags_after_name() -> Set<u32> {
    tags_after_maxp().insert(NAME)
}

/// The tags of all the tables of a subset.
pub open spec fn subset_tags() -> Set<u32> {
    tags_after_name().insert(POST)
}

/// Add the new `head` table, if the face has one.
fn head_step(face: &Face, tables: &mut Vec<(u32, Vec<u8>)>, long: bool) -> (res: Result<(), Error>)
    requires
        built(tables_view(old(tables)@), outline_tags(), 5),
    ensures
        match step_head(
            tables_view(old(tables)@),
            face.data@,
            face.records@,
            long,
        ) {
            Ok(ts) => res is Ok && tables_view(final(tables)@) == ts,
            Err(e) => res matches Err(e2) && e2 == e,
        },
        res is Ok ==> built(tables_view(final(tables)@), tags_after_head(), 6),
        res is Ok ==> tables_view(final(tables)@).len() >= tables_view(old(tables)@).len(),
{
    let ghost t0 = tables_view(tables@);
    match face.table(HEAD) {
        Some(h) => {
            let sub = match head::subset(h, long) {
                Ok(b) => b,
                Err(e) => return Err(e),
            };
            push_table(tables, HEAD, sub);
            proof {
                lemma_built_push(t0, outline_tags(), 5, (HEAD, sub@));
            }
            Ok(())
        },
        None => {
            proof {
                lemma_built_more(t0, outline_tags(), 5, tags_after_head(), 6);
            }
            Ok(())
        },
    }
}

/// The metrics of the glyphs.
fn glyph_metrics(glyphs: &[GlyphData]) -> (res: Vec<Metrics>)
    ensures
        res@ == metrics_of(glyphs@),
{
    let mut v: Vec<Metrics> = Vec::new();
    let mut i: usize = 0;
    while i < glyphs.len()
        invariant
            i <= glyphs@.len(),
            v@ == metrics_of(glyphs@.take(i as int)),
        decreases glyphs@.len() - i,
    {
        v.push(glyphs[i].metrics);
        proof {
            assert(metrics_of(glyphs@.take(i + 1)) =~= metrics_of(glyphs@.take(i as int)).push(
                glyphs@[i as int].metrics,
            ));
        }
        i = i + 1;
    }
    assert(glyphs@.take(i as int) =~= glyphs@);
    v
}

/// Add the new `hmtx` and `hhea` tables, if the face has an `hmtx` table.
fn hmtx_step(face: &Face, tables: &mut Vec<(u32, Vec<u8>)>, glyphs: &[GlyphData]) -> (res: Result<
    (),
    Error,
>)
    requires
        built(tables_view(old(tables)@), tags_after_head(), 6),
    ensures
        match step_hmtx(
            tables_view(old(tables)@),
            face.data@,
            face.records@,
            glyphs@,
        ) {
            Ok(ts) => res is Ok && tables_view(final(tables)@) == ts,
            Err(e) => res matches Err(e2) && e2 == e,
        },
        res is Ok ==> built(tables_view(final(tables)@), tags_after_hmtx(), 8),
        res is Ok ==> tables_view(final(tables)@).len() >= tables_view(old(tables)@).len(),
{
    let ghost t0 = tables_view(tables@);
    match face.table(HMTX) {
        Some(_) => {
            let metrics = glyph_metrics(glyphs);
            let hmtx = subset_hmtx(metrics.as_slice());
            push_table(tables, HMTX, hmtx);
            let ghost t1 = tables_view(tables@);
            proof {
                lemma_built_push(t0, tags_after_head(), 6, (HMTX, hmtx@));
            }
            let hhea = match face.table(HHEA) {
                Some(h) => h,
                None => return Err(Error::MalformedFont),
            };
            #[verifier::truncate]
            let num_glyphs = glyphs.len() as u16;
            let sub = match subset_hhea(hhea, num_glyphs) {
                Ok(b) => b,
                Err(e) => return Err(e),
            };
            push_table(tables, HHEA, sub);
            proof {
                lemma_built_push(t1, tags_after_head().insert(HMTX), 7, (HHEA, sub@));
            }
            Ok(())
        },
        None => {
            proof {
                lemma_built_more(t0, tags_after_head(), 6, tags_after_hmtx(), 8);
            }
            Ok(())
        },
    }
}

/// Add the new `maxp` table, if the face has one.
fn maxp_step(
    face: &Face,
    tables: &mut Vec<(u32, Vec<u8>)>,
    kind: FontKind,
    num_gids: u16,
    custom: Option<MaxpData>,
) -> (res: Result<(), Error>)
    requires
        built(tables_view(old(tables)@), tags_after_hmtx(), 8),
    ensures
        match step_maxp(
            tables_view(old(tables)@),
            face.data@,
            face.records@,
            kind,
            num_gids,
            custom,
        ) {
            Ok(ts) => res is Ok && tables_view(final(tables)@) == ts,
            Err(e) => res matches Err(e2) && e2 == e,
        },
        res is Ok ==> built(tables_view(final(tables)@), tags_after_maxp(), 9),
        res is Ok ==> tables_view(final(tables)@).len() >= tables_view(old(tables)@).len(),
{
    let ghost t0 = tables_view(tables@);
    match face.table(MAXP) {
        Some(m) => {
            let sub = match maxp::subset(m, kind, num_gids, custom) {
                Ok(b) => b,
                Err(e) => return Err(e),
            };
            push_table(tables, MAXP, sub);
            proof {
                lemma_built_push(t0, tags_after_hmtx(), 8, (MAXP, sub@));
            }
            Ok(())
        },
        None => {
            proof {
                lemma_built_more(t0, tags_after_hmtx(), 8, tags_after_maxp(), 9);
            }
            Ok(())
        },
    }
}

/// Add the new `name` table, if the face has one.
fn name_step(face: &Face, tables: &mut Vec<(u32, Vec<u8>)>) -> (res: Result<(), Error>)
    requires
        built(tables_view(old(tables)@), tags_after_maxp(), 9),
    ensures
        match step_name(
            tables_view(old(tables)@),
            face.data@,
            face.records@,
        ) {
            Ok(ts) => res is Ok && tables_view(final(tables)@) == ts,
            Err(e) => res matches Err(e2) && e2 == e,
        },
        res is Ok ==> built(tables_view(final(tables)@), tags_after_name(), 10),
        res is Ok ==> tables_view(final(tables)@).len() >= tables_view(old(tables)@).len(),
{
    let ghost t0 = tables_view(tables@);
    match face.table(NAME) {
        Some(n) => {
            let sub = match name::subset(n) {
                Ok(b) => b,
                Err(e) => return Err(e),
            };
            push_table(tables, NAME, sub);
            proof {
                lemma_built_push(t0, tags_after_maxp(), 9, (NAME, sub@));
            }
            Ok(())
        },
        None => {
            proof {
                lemma_built_more(t0, tags_after_maxp(), 9, tags_after_name(), 10);
            }
            Ok(())
        },
    }
}

/// Add the new `post` table, if the face has one.
fn post_step(face: &Face, tables: &mut Vec<(u32, Vec<u8>)>, mapper: &GlyphRemapper) -> (res: Result<
    (),
    Error,
>)
    requires
        mapper.wf(),
        !mapper.spec_is_identity(),
        built(tables_view(old(tables)@), tags_after_name(), 10),
    ensures
        match step_post(
            tables_view(old(tables)@),
            face.data@,
            face.records@,
            mapper.spec_gids(),
        ) {
            Ok(ts) => res is Ok && tables_view(final(tables)@) == ts,
            Err(e) => res matches Err(e2) && e2 == e,
        },
        res is Ok ==> built(tables_view(final(tables)@), subset_tags(), 11),
        res is Ok ==> tables_view(final(tables)@).len() >= tables_view(old(tables)@).len(),
{
    let ghost t0 = tables_view(tables@);
    match face.table(POST) {
        Some(p) => {
            let sub = match post::subset(p, mapper) {
                Ok(b) => b,
                Err(e) => return Err(e),
            };
            push_table(tables, POST, sub);
            proof {
                lemma_built_push(t0, tags_after_name(), 10, (POST, sub@));
            }
            Ok(())
        },
        None => {
            proof {
                lemma_built_more(t0, tags_after_name(), 10, subset_tags(), 11);
            }
            Ok(())
        },
    }
}

/// Add the required tables after the outline tables.
fn required_steps(
    face: &Face,
    tables: &mut Vec<(u32, Vec<u8>)>,
    kind: FontKind,
    long: bool,
    custom: Option<MaxpData>,
    mapper: &GlyphRemapper,
    glyphs: &[GlyphData],
) -> (res: Result<(), Error>)
    requires
        mapper.wf(),
        !mapper.spec_is_identity(),
        built(tables_view(old(tables)@), outline_tags(), 5),
    ensures
        match required_tables(
            tables_view(old(tables)@),
            face.data@,
            face.records@,
            kind,
            long,
            custom,
            mapper.spec_gids(),
            glyphs@,
        ) {
            Ok(ts) => res is Ok && tables_view(final(tables)@) == ts,
            Err(e) => res matches Err(e2) && e2 == e,
        },
        res is Ok ==> built(tables_view(final(tables)@), subset_tags(), 11),
        res is Ok ==> tables_view(final(tables)@).len() >= tables_view(old(tables)@).len(),
{
    proof {
        reveal(required_tables);
    }
    match head_step(face, tables, long) {
        Ok(()) => {},
        Err(e) => return Err(e),
    }
    match hmtx_step(face, tables, glyphs) {
        Ok(()) => {},
        Err(e) => return Err(e),
    }
    let num_gids = mapper.num_gids();
    match maxp_step(face, tables, kind, num_gids, custom) {
        Ok(()) => {},
        Err(e) => return Err(e),
    }
    match name_step(face, tables) {
        Ok(()) => {},
        Err(e) => return Err(e),
    }
    post_step(face, tables, mapper)
}

/// Whether the outline tables made agree with what they should be.
pub open spec fn outlines_agree(
    expected: Result<(Seq<(u32, Seq<u8>)>, bool, Option<MaxpData>), Error>,
    made: Result<(Vec<(u32, Vec<u8>)>, bool, Option<MaxpData>), Error>,
) -> bool {
    match expected {
        Ok((ts, long, custom)) => made matches Ok((v, l, c)) && tables_view(v@) == ts && l == long
            && c == custom,
        Err(e) => made matches Err(e2) && e2 == e,
    }
}


/// What [`spec_face_subset`] is, once the kind and outline tables of the face are known.
proof fn lemma_face_subset(
    d: Seq<u8>,
    gids: Seq<u16>,
    glyphs: Seq<GlyphData>,
    recs: Seq<TableRecord>,
    kind: FontKind,
    t0: Seq<(u32, Seq<u8>)>,
    long: bool,
    custom: Option<MaxpData>,
)
    requires
        spec_outline_kind(d, recs) == Some(kind),
        outline_tables(d, recs, kind, gids, glyphs) == Ok::<_, Error>((t0, long, custom)),
    ensures
        spec_face_subset(d, recs, gids, glyphs) == match required_tables(
            t0,
            d,
            recs,
            kind,
            long,
            custom,
            gids,
            glyphs,
        ) {
            Err(e) => Err(e),
            Ok(all) => Ok((kind, all)),
        },
{
    reveal(spec_face_subset);
}

/// The kind of a face and the tables of its subset.
fn subset_tables(face: &Face, mapper: &GlyphRemapper, glyphs: &[GlyphData]) -> (res: Result<
    (FontKind, Vec<(u32, Vec<u8>)>),
    Error,
>)
    requires
        mapper.wf(),
        !mapper.spec_is_identity(),
    ensures
        match spec_face_subset(
            face.data@,
            face.records@,
            mapper.spec_gids(),
            glyphs@,
        ) {
            Err(e) => res matches Err(e2) && e2 == e,
            Ok((kind, ts)) => res matches Ok((k, v)) && k == kind && tables_view(v@) == ts,
        },
        res matches Ok((_, v)) ==> 1 <= v@.len() && built(tables_view(v@), subset_tags(), 11),
{
    let ghost d = face.data@;
    let ghost recs = face.records@;
    let ghost gids = mapper.spec_gids();
    let glyf_table = face.table(GLYF);
    let cff_table = face.table(CFF);
    let kind = if glyf_table.is_some() {
        FontKind::TrueType
    } else if cff_table.is_some() {
        FontKind::Cff
    } else {
        proof {
            assert(spec_face_subset(d, recs, gids, glyphs@) == Err::<
                (FontKind, Seq<(u32, Seq<u8>)>),
                Error,
            >(Error::UnknownKind)) by {
                reveal(spec_face_subset);
            }
        }
        return Err(Error::UnknownKind);
    };
    proof {
        assert(spec_outline_kind(d, recs) == Some(kind));
    }
    let outlines = if kind == FontKind::TrueType {
        truetype_outlines(face, glyphs)
    } else {
        cff_outlines(cff_table.unwrap(), mapper)
    };
    proof {
        assert(outlines_agree(outline_tables(d, recs, kind, gids, glyphs@), outlines)) by {
            reveal(outline_tables);
        }
    }
    let (mut tables, long, custom) = match outlines {
        Ok(r) => r,
        Err(e) => {
            proof {
                assert(spec_face_subset(d, recs, gids, glyphs@) == Err::<
                    (FontKind, Seq<(u32, Seq<u8>)>),
                    Error,
                >(e)) by {
                    reveal(spec_face_subset);
                }
            }
            return Err(e);
        },
    };
    let ghost t0 = tables_view(tables@);
    proof {
        lemma_face_subset(d, gids, glyphs@, recs, kind, t0, long, custom);
    }
    match required_steps(face, &mut tables, kind, long, custom, mapper, glyphs) {
        Ok(()) => {},
        Err(e) => return Err(e),
    }
    Ok((kind, tables))
}

/// Subset the font face to include only the necessary glyphs and tables.
///
/// - The `data` must be in the OpenType font format.
/// - The `index` is only relevant if the data contains a font collection (`.ttc` or `.otc`
///   file). Otherwise, it should be 0.
/// - `glyphs` holds what the outline library computes for each glyph of the subset, in the
///   order of the new glyph IDs.
///
/// The tables are looked up by binary search in the table directory, which OpenType keeps
/// sorted by tag; in a directory that is not sorted, a table that is there may not be found.
pub fn subset(data: &[u8], index: u32, mapper: &GlyphRemapper, glyphs: &[GlyphData]) -> (res:
    Result<Vec<u8>, Error>)
    requires
        mapper.wf(),
        !mapper.spec_is_identity(),
        glyphs@.len() == mapper.spec_num_gids(),
    ensures
        spec_parse_face(data@, index) matches Err(e) ==> res matches Err(e2) && e2 == e,
        spec_parse_face(data@, index) is Ok ==> match spec_subset(
            data@,
            index,
            mapper.spec_gids(),
            glyphs@,
        ) {
            Err(e) => res matches Err(e2) && e2 == e,
            Ok((kind, tables)) => exists|ts: Seq<(u32, Seq<u8>)>|
                #![trigger is_sorting(ts, tables)]
                is_sorting(ts, tables) && match res {
                    Ok(b) => table_offset(ts, ts.len() as int) <= usize::MAX && b@
                        == spec_construct(kind, ts),
                    Err(e) => e == Error::OverflowError && table_offset(ts, ts.len() as int)
                        > usize::MAX,
                },
        },
{
    let face = match parse(data, index) {
        Ok(f) => f,
        Err(e) => return Err(e),
    };
    let (kind, tables) = match subset_tables(&face, mapper, glyphs) {
        Ok(r) => r,
        Err(e) => return Err(e),
    };
    proof {
        let ts = tables_view(tables@);
        assert forall|i: int|
            0 <= i < tables@.len() && (#[trigger] tables@[i]).0 == HEAD implies tables@[i].1@.len()
            >= 12 by {
            assert(ts[i].0 == HEAD);
        }
    }
    construct(kind, tables)
}

} // verus!
