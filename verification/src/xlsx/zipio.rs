//! The workbook as a package of parts.
use vstd::prelude::*;
use vstd::utf8::encode_utf8;
use vstd::slice::slice_subrange;
use crate::text::{
    bytes_of, chars_of, find_from, join2, lemma_encode_nonempty, push_bytes, push_text, same_text,
    text_of,
};
use crate::xlsx::xmlscan::{
    attr_of, attr_value, element_span, find_byte, found_tag, lemma_span_of, lemma_tag_from,
    next_tag, span_of, tag_bounds, tag_from, Tag, TagInfo,
};

verus! {

/// One part of the package.
pub struct Entry {
    pub name: String,
    pub data: Vec<u8>,
}

/// A part by its name and its bytes.
#[verifier::ext_equal]
pub ghost struct Part {
    pub name: Seq<char>,
    pub data: Seq<u8>,
}

impl View for Entry {
    type V = Part;

    open spec fn view(&self) -> Part {
        Part { name: self.name@, data: self.data@ }
    }
}

/// The parts that entries hold, in their order.
pub open spec fn parts(entries: Seq<Entry>) -> Seq<Part> {
    entries.map_values(|e: Entry| e@)
}

/// The first part called `name` at or behind `i`.
pub open spec fn part_from(p: Seq<Part>, i: int, name: Seq<char>) -> Option<int>
    decreases p.len() - i,
{
    if i < 0 || i >= p.len() {
        None
    } else if p[i].name == name {
        Some(i)
    } else {
        part_from(p, i + 1, name)
    }
}

/// The part that is found has the name, and none in front of it has.
pub proof fn lemma_part_from(p: Seq<Part>, i: int, name: Seq<char>)
    requires
        0 <= i,
    ensures
        part_from(p, i, name) matches Some(k) ==> i <= k < p.len() && p[k].name == name && forall|
            j: int,
        |
            i <= j < k ==> (#[trigger] p[j]).name != name,
        part_from(p, i, name) is None ==> forall|j: int|
            i <= j < p.len() ==> (#[trigger] p[j]).name != name,
    decreases p.len() - i,
{
    if i < p.len() && p[i].name != name {
        lemma_part_from(p, i + 1, name);
    }
}

// -------------------------------------------------------------- outside archive
/// `zip::ZipArchive`.
#[verifier::external_type_specification]
#[verifier::external_body]
#[verifier::reject_recursive_types(R)]
pub struct ExZipArchive<R>(zip::ZipArchive<R>);

/// `std::io::Cursor`.
#[verifier::external_type_specification]
#[verifier::external_body]
#[verifier::reject_recursive_types(T)]
pub struct ExCursor<T>(std::io::Cursor<T>);

/// An archive over bytes in memory.
pub type Archive = zip::ZipArchive<std::io::Cursor<Vec<u8>>>;

/// The bytes that an archive was opened on.
pub uninterp spec fn archive_bytes(a: Archive) -> Seq<u8>;

/// Why bytes cannot be opened as an archive, if they cannot.
pub uninterp spec fn open_error(bytes: Seq<u8>) -> Option<Seq<char>>;

/// How many members an archive has.
pub uninterp spec fn member_count(bytes: Seq<u8>) -> nat;

/// A member of an archive: whether it is a directory, its name and its data, or why the member or
/// its data cannot be read.
pub uninterp spec fn member(bytes: Seq<u8>, i: nat) -> Result<
    (bool, Seq<char>, Result<Seq<u8>, Seq<char>>),
    Seq<char>,
>;

/// A member as it was read: whether it is a directory, its name and its data.
pub type Member = (bool, String, Result<Vec<u8>, String>);

/// A member with its texts and bytes.
pub open spec fn member_view(m: Result<Member, String>) -> Result<
    (bool, Seq<char>, Result<Seq<u8>, Seq<char>>),
    Seq<char>,
> {
    match m {
        Ok((dir, name, Ok(data))) => Ok((dir, name@, Ok(data@))),
        Ok((dir, name, Err(e))) => Ok((dir, name@, Err(e@))),
        Err(e) => Err(e@),
    }
}

/// `zip::ZipArchive::new` on bytes in memory. Whether it succeeds, and the message of its error,
/// depend on the bytes alone.
#[verifier::external_body]
pub(crate) fn open_archive(bytes: &[u8]) -> (r: Result<Archive, String>)
    ensures
        match open_error(bytes@) {
            None => r matches Ok(a) && archive_bytes(a) == bytes@,
            Some(e) => r matches Err(t) && t@ == e,
        },
{
    zip::ZipArchive::new(std::io::Cursor::new(bytes.to_vec())).map_err(|e| format!("{}", e))
}

/// `zip::ZipArchive::len` is the number of members, which depends on the bytes alone.
#[verifier::external_body]
pub(crate) fn archive_len(a: &Archive) -> (r: usize)
    ensures
        r == member_count(archive_bytes(*a)),
{
    a.len()
}

/// `zip::ZipArchive::by_index`, with what the member that it finds says of itself and all of its
/// data. What comes out depends on the bytes of the archive and the place alone. A member is a
/// directory where its name ends with a slash of either kind.
#[verifier::external_body]
pub(crate) fn read_member(a: &mut Archive, i: usize) -> (r: Result<Member, String>)
    ensures
        archive_bytes(*final(a)) == archive_bytes(*old(a)),
        member_view(r) == member(archive_bytes(*old(a)), i as nat),
        r matches Ok((dir, name, _)) ==> dir == is_dir_name(name@),
{
    let mut f = a.by_index(i).map_err(|e| format!("{}", e))?;
    let mut data: Vec<u8> = Vec::new();
    let read = std::io::Read::read_to_end(&mut f, &mut data);
    Ok((f.is_dir(), f.name().to_string(), read.map(|_| data).map_err(|e| format!("{}", e))))
}

/// An archive that is being written.
#[verifier::external_body]
pub struct PartWriter {
    inner: zip::ZipWriter<std::io::Cursor<Vec<u8>>>,
}

/// The parts that were put into an archive so far.
pub uninterp spec fn written(w: PartWriter) -> Seq<Part>;

/// What comes of starting a part behind others.
pub uninterp spec fn start_outcome(before: Seq<Part>, name: Seq<char>) -> Result<(), Seq<char>>;

/// What comes of putting data into the last of the parts.
pub uninterp spec fn write_outcome(before: Seq<Part>, data: Seq<u8>) -> Result<(), Seq<char>>;

/// The bytes of an archive with these parts.
pub uninterp spec fn archive_of(p: Seq<Part>) -> Result<Seq<u8>, Seq<char>>;

/// The outcome of a step by its message.
pub open spec fn outcome(r: Result<(), String>) -> Result<(), Seq<char>> {
    match r {
        Ok(_) => Ok(()),
        Err(e) => Err(e@),
    }
}

/// Whether one of the parts has the name.
pub open spec fn is_named(p: Seq<Part>, name: Seq<char>) -> bool {
    exists|i: int| 0 <= i < p.len() && (#[trigger] p[i]).name == name
}

/// A name that marks a directory.
pub open spec fn is_dir_name(name: Seq<char>) -> bool {
    name.len() > 0 && (name.last() == '/' || name.last() == '\\')
}

/// `zip::ZipWriter::new` on an empty buffer starts an archive without parts.
#[verifier::external_body]
fn new_writer() -> (r: PartWriter)
    ensures
        written(r) == Seq::<Part>::empty(),
{
    PartWriter { inner: zip::ZipWriter::new(std::io::Cursor::new(Vec::new())) }
}

/// `zip::ZipWriter::start_file` with deflate compression. It ends the part before and starts one
/// without data; what comes of it depends on the parts so far and on the name. A name that is
/// there already is refused. A name of more than 65535 bytes makes it panic.
#[verifier::external_body]
fn start_part(w: &mut PartWriter, name: &str) -> (r: Result<(), String>)
    requires
        encode_utf8(name@).len() <= 65535,
    ensures
        outcome(r) == start_outcome(written(*old(w)), name@),
        r is Ok ==> written(*final(w)) == written(*old(w)).push(
            (Part { name: name@, data: Seq::empty() }),
        ),
        is_named(written(*old(w)), name@) ==> r is Err,
{
    let options = zip::write::SimpleFileOptions::default().compression_method(
        zip::CompressionMethod::Deflated,
    );
    w.inner.start_file(name, options).map_err(|e| format!("{}", e))
}

/// `write_all` of `zip::ZipWriter` puts data into the part that was started last, all of them in
/// one call. What comes of it depends on the parts so far and on the data.
#[verifier::external_body]
fn write_part(w: &mut PartWriter, data: &[u8]) -> (r: Result<(), String>)
    requires
        written(*old(w)).len() > 0,
        written(*old(w)).last().data.len() == 0,
    ensures
        outcome(r) == write_outcome(written(*old(w)), data@),
        r is Ok ==> written(*final(w)) == written(*old(w)).drop_last().push(
            (Part { name: written(*old(w)).last().name, data: data@ }),
        ),
{
    std::io::Write::write_all(&mut w.inner, data).map_err(|e| format!("{}", e))
}

/// `zip::ZipWriter::finish` ends the archive and gives its bytes, or the message of an error; both
/// depend on the parts alone. An archive of fewer than 65535 parts and less than four gigabytes is
/// read back by `zip::ZipArchive` part for part.
#[verifier::external_body]
fn finish_parts(w: PartWriter) -> (r: Result<Vec<u8>, String>)
    ensures
        match archive_of(written(w)) {
            Ok(b) => r matches Ok(v) && v@ == b,
            Err(e) => r matches Err(t) && t@ == e,
        },
        r matches Ok(v) ==> written(w).len() < 65535 && v@.len() < 0xffff_ffff ==> {
            &&& open_error(v@) is None
            &&& member_count(v@) == written(w).len()
            &&& forall|i: int| #![trigger written(w)[i]]
                0 <= i < written(w).len() ==> member(v@, i as nat) == Ok::<_, Seq<char>>(
                    (
                        is_dir_name(written(w)[i].name),
                        written(w)[i].name,
                        Ok::<Seq<u8>, Seq<char>>(written(w)[i].data),
                    ),
                )
        },
{
    w.inner.finish().map(|c| c.into_inner()).map_err(|e| format!("{}", e))
}

// ---------------------------------------------------------------------- reading
/// The parts of an archive from member `i` on, without the directories; the first member that
/// cannot be read decides the message.
pub open spec fn parts_from(bytes: Seq<u8>, i: nat) -> Result<Seq<Part>, Seq<char>>
    decreases member_count(bytes) - i,
{
    if i >= member_count(bytes) {
        Ok(Seq::empty())
    } else {
        match member(bytes, i) {
            Err(e) => Err("BadZipFile: "@ + e),
            Ok((true, _, _)) => parts_from(bytes, i + 1),
            Ok((false, _, Err(e))) => Err("read entry failed: "@ + e),
            Ok((false, name, Ok(data))) => match parts_from(bytes, i + 1) {
                Ok(rest) => Ok(seq![Part { name, data }] + rest),
                Err(e) => Err(e),
            },
        }
    }
}

/// The parts that the bytes of a workbook hold.
pub open spec fn parts_in(bytes: Seq<u8>) -> Result<Seq<Part>, Seq<char>> {
    match open_error(bytes) {
        Some(e) => Err("BadZipFile: "@ + e),
        None => parts_from(bytes, 0),
    }
}

/// Parts in front of parts.
spec fn behind(front: Seq<Part>, rest: Result<Seq<Part>, Seq<char>>) -> Result<
    Seq<Part>,
    Seq<char>,
> {
    match rest {
        Ok(p) => Ok(front + p),
        Err(e) => Err(e),
    }
}

/// Reads all parts of a workbook in their order; none of them is a directory.
pub fn read_entries(bytes: &[u8]) -> (r: Result<Vec<Entry>, String>)
    ensures
        match parts_in(bytes@) {
            Ok(p) => r matches Ok(v) && parts(v@) == p && are_files(p),
            Err(e) => r matches Err(t) && t@ == e,
        },
{
    let mut archive = match open_archive(bytes) {
        Ok(a) => a,
        Err(e) => {
            return Err(join2("BadZipFile: ", e.as_str()));
        },
    };
    let count: usize = archive_len(&archive);
    let mut out: Vec<Entry> = Vec::new();
    let mut i: usize = 0;
    let ghost all = parts_from(bytes@, 0);
    assert(parts(out@) =~= Seq::<Part>::empty());
    proof {
        if let Ok(p) = all {
            assert(Seq::<Part>::empty() + p =~= p);
        }
    }
    while i < count
        invariant
            i <= count,
            count == member_count(bytes@),
            archive_bytes(archive) == bytes@,
            open_error(bytes@) is None,
            all == parts_from(bytes@, 0),
            all == behind(parts(out@), parts_from(bytes@, i as nat)),
            are_files(parts(out@)),
        decreases count - i,
    {
        let ghost before = out@;
        match read_member(&mut archive, i) {
            Err(e) => {
                return Err(join2("BadZipFile: ", e.as_str()));
            },
            Ok((dir, name, read)) => {
                if !dir {
                    match read {
                        Err(e) => {
                            return Err(join2("read entry failed: ", e.as_str()));
                        },
                        Ok(data) => {
                            let ghost part = Part { name: name@, data: data@ };
                            out.push(Entry { name, data });
                            proof {
                                assert(parts(out@) =~= parts(before).push(part));
                                if let Ok(p) = parts_from(bytes@, (i + 1) as nat) {
                                    assert(parts(before) + (seq![part] + p) =~= parts(out@) + p);
                                }
                            }
                        },
                    }
                }
            },
        }
        i = i + 1;
    }
    assert(parts(out@) + Seq::<Part>::empty() =~= parts(out@));
    Ok(out)
}

// ---------------------------------------------------------------------- writing
/// The archive that parts from `i` on are put into, behind those in front of them.
pub open spec fn packed_from(p: Seq<Part>, i: int) -> Result<Seq<u8>, Seq<char>>
    decreases p.len() - i,
{
    if i < 0 || i >= p.len() {
        match archive_of(p) {
            Ok(b) => Ok(b),
            Err(e) => Err("zip finish failed: "@ + e),
        }
    } else {
        match start_outcome(p.take(i), p[i].name) {
            Err(e) => Err("zip start_file failed: "@ + e),
            Ok(_) => match write_outcome(
                p.take(i).push(Part { name: p[i].name, data: Seq::empty() }),
                p[i].data,
            ) {
                Err(e) => Err("zip write failed: "@ + e),
                Ok(_) => packed_from(p, i + 1),
            },
        }
    }
}

/// The archive that holds the parts, or the message of what went wrong.
pub open spec fn packed(p: Seq<Part>) -> Result<Seq<u8>, Seq<char>> {
    packed_from(p, 0)
}

/// No name is longer than an archive can hold.
pub open spec fn names_fit(p: Seq<Part>) -> bool {
    forall|i: int| 0 <= i < p.len() ==> encode_utf8((#[trigger] p[i]).name).len() <= 65535
}

/// No name marks a directory.
pub open spec fn are_files(p: Seq<Part>) -> bool {
    forall|i: int| 0 <= i < p.len() ==> !is_dir_name((#[trigger] p[i]).name)
}

/// The parts whose names mark no directory.
pub open spec fn files(p: Seq<Part>) -> Seq<Part>
    decreases p.len(),
{
    if p.len() == 0 {
        Seq::empty()
    } else if is_dir_name(p[0].name) {
        files(p.drop_first())
    } else {
        seq![p[0]] + files(p.drop_first())
    }
}

/// Whether the names of all parts can stand in an archive.
pub fn names_short(entries: &[Entry]) -> (r: bool)
    ensures
        r == names_fit(parts(entries@)),
{
    let mut i: usize = 0;
    while i < entries.len()
        invariant
            i <= entries@.len(),
            forall|k: int|
                0 <= k < i ==> encode_utf8((#[trigger] parts(entries@)[k]).name).len() <= 65535,
        decreases entries@.len() - i,
    {
        if entries[i].name.as_str().as_bytes().len() > 65535 {
            assert(encode_utf8(parts(entries@)[i as int].name).len() > 65535);
            return false;
        }
        i = i + 1;
    }
    true
}

/// An archive whose members are the parts is read back as the parts.
proof fn lemma_read_back(p: Seq<Part>, b: Seq<u8>, i: nat)
    requires
        i <= p.len(),
        member_count(b) == p.len(),
        forall|k: int| #![trigger p[k]]
            0 <= k < p.len() ==> member(b, k as nat) == Ok::<_, Seq<char>>(
                (is_dir_name(p[k].name), p[k].name, Ok::<Seq<u8>, Seq<char>>(p[k].data)),
            ),
    ensures
        parts_from(b, i) == Ok::<Seq<Part>, Seq<char>>(files(p.skip(i as int))),
    decreases p.len() - i,
{
    if i < p.len() {
        lemma_read_back(p, b, i + 1);
        assert(p.skip(i as int).drop_first() =~= p.skip((i + 1) as int));
        assert(p.skip(i as int)[0] == p[i as int]);
        let k = i as int;
        assert(p[k] == (Part { name: p[k].name, data: p[k].data }));
    } else {
        assert(p.skip(i as int) =~= Seq::<Part>::empty());
    }
}

/// Packs the parts in their order. What was packed is read back, as long as the archive has fewer
/// than 65535 parts and less than four gigabytes.
pub fn write_entries(entries: &[Entry]) -> (r: Result<Vec<u8>, String>)
    requires
        names_fit(parts(entries@)),
    ensures
        match packed(parts(entries@)) {
            Ok(b) => r matches Ok(v) && v@ == b,
            Err(e) => r matches Err(t) && t@ == e,
        },
        r matches Ok(v) ==> entries@.len() < 65535 && v@.len() < 0xffff_ffff ==> parts_in(v@)
            == Ok::<Seq<Part>, Seq<char>>(files(parts(entries@))),
{
    let mut w = new_writer();
    let ghost p = parts(entries@);
    let mut i: usize = 0;
    assert(p.take(0) =~= Seq::<Part>::empty());
    while i < entries.len()
        invariant
            i <= entries@.len(),
            p == parts(entries@),
            names_fit(p),
            written(w) == p.take(i as int),
            packed(p) == packed_from(p, i as int),
        decreases entries@.len() - i,
    {
        assert(p[i as int] == entries@[i as int]@);
        match start_part(&mut w, entries[i].name.as_str()) {
            Err(e) => {
                return Err(join2("zip start_file failed: ", e.as_str()));
            },
            Ok(_) => {},
        }
        match write_part(&mut w, entries[i].data.as_slice()) {
            Err(e) => {
                return Err(join2("zip write failed: ", e.as_str()));
            },
            Ok(_) => {},
        }
        proof {
            let started = p.take(i as int).push(Part { name: p[i as int].name, data: Seq::empty() });
            assert(started.drop_last() =~= p.take(i as int));
            assert(p.take(i + 1) =~= p.take(i as int).push(p[i as int]));
            assert(p[i as int] == (Part { name: p[i as int].name, data: p[i as int].data }));
        }
        i = i + 1;
    }
    assert(p.take(i as int) =~= p);
    match finish_parts(w) {
        Err(e) => Err(join2("zip finish failed: ", e.as_str())),
        Ok(v) => {
            proof {
                if p.len() < 65535 && v@.len() < 0xffff_ffff {
                    lemma_read_back(p, v@, 0);
                    assert(p.skip(0) =~= p);
                }
            }
            Ok(v)
        },
    }
}

// ------------------------------------------------------------------ calculation
/// Whether a tag opens an element called `name` that names `x` or `y` in its attribute `key`.
pub open spec fn names_one(
    b: Seq<u8>,
    t: Tag,
    name: Seq<char>,
    key: Seq<char>,
    x: Seq<char>,
    y: Seq<char>,
) -> bool {
    t.name == name && !t.closing && (match attr_of(b.subrange(t.inner.0, t.inner.1), key) {
        Some(v) => v == x || v == y,
        None => false,
    })
}

/// The bytes from `pos` on without the elements called `name` that name `x` or `y` in their
/// attribute `key`; everything else stays.
pub open spec fn without_elements(
    b: Seq<u8>,
    pos: int,
    name: Seq<char>,
    key: Seq<char>,
    x: Seq<char>,
    y: Seq<char>,
) -> Seq<u8>
    decreases b.len() - pos,
{
    match tag_from(b, pos) {
        None => b.skip(pos),
        Some(t) => {
            proof {
                lemma_tag_from(b, pos);
                lemma_span_of(b, t);
            }
            match span_of(b, t) {
                Some(span) if names_one(b, t, name, key, x, y) => b.subrange(pos, t.at)
                    + without_elements(b, span.1, name, key, x, y),
                _ => b.subrange(pos, t.after) + without_elements(b, t.after, name, key, x, y),
            }
        },
    }
}

/// The last piece of a path.
pub open spec fn base_name(path: Seq<char>) -> Seq<char>
    decreases path.len(),
{
    if path.len() == 0 || path.last() == '/' {
        Seq::empty()
    } else {
        base_name(path.drop_last()).push(path.last())
    }
}

/// The parts with the data of the first one called `name` exchanged.
pub open spec fn with_data(p: Seq<Part>, name: Seq<char>, data: Seq<u8>) -> Seq<Part> {
    match part_from(p, 0, name) {
        None => p,
        Some(i) => p.update(i, Part { name: p[i].name, data }),
    }
}

/// A content types part without the `Override` elements for `part`.
pub open spec fn unlisted_data(data: Seq<u8>, part: Seq<char>) -> Seq<u8> {
    without_elements(data, 0, "Override"@, "PartName"@, "/"@ + part, "/"@ + part)
}

/// The workbook's relationships without those whose target is `part`.
pub open spec fn unrelated_data(data: Seq<u8>, part: Seq<char>) -> Seq<u8> {
    without_elements(data, 0, "Relationship"@, "Target"@, base_name(part), "/"@ + part)
}

/// The parts with `part` no longer listed among the content types.
pub open spec fn unlisted(p: Seq<Part>, part: Seq<char>) -> Seq<Part> {
    match part_from(p, 0, "[Content_Types].xml"@) {
        None => p,
        Some(i) => with_data(p, "[Content_Types].xml"@, unlisted_data(p[i].data, part)),
    }
}

/// The parts with no relationship of the workbook to `part`.
pub open spec fn unrelated(p: Seq<Part>, part: Seq<char>) -> Seq<Part> {
    match part_from(p, 0, "xl/_rels/workbook.xml.rels"@) {
        None => p,
        Some(i) => with_data(p, "xl/_rels/workbook.xml.rels"@, unrelated_data(p[i].data, part)),
    }
}

/// The parts that are not called `part`.
pub open spec fn others(p: Seq<Part>, part: Seq<char>) -> Seq<Part> {
    p.filter(|x: Part| x.name != part)
}

/// The parts without those called `part` and, where there is one, without what refers to it.
pub open spec fn without_part(p: Seq<Part>, part: Seq<char>) -> Seq<Part> {
    if part_from(p, 0, part) is None {
        p
    } else {
        unrelated(unlisted(others(p, part), part), part)
    }
}

/// The first tag called `name` from `pos` on, opening or closing.
pub open spec fn tag_called(b: Seq<u8>, pos: int, name: Seq<char>, closing: bool) -> Option<Tag>
    decreases b.len() - pos,
{
    match tag_from(b, pos) {
        None => None,
        Some(t) => {
            proof {
                lemma_tag_from(b, pos);
            }
            if t.name == name && t.closing == closing {
                Some(t)
            } else {
                tag_called(b, t.at + 1, name, closing)
            }
        },
    }
}

/// The request to calculate everything when the workbook is opened, as an attribute.
pub open spec fn calc_attribute() -> Seq<u8> {
    encode_utf8(" fullCalcOnLoad=\"1\""@)
}

/// The same as an element.
pub open spec fn calc_element() -> Seq<u8> {
    encode_utf8("<calcPr calcId=\"140000\" fullCalcOnLoad=\"1\"/>"@)
}

/// The workbook's own part with that request; nothing where the request is there already or has no
/// place.
pub open spec fn with_full_calc(b: Seq<u8>) -> Option<Seq<u8>> {
    match tag_called(b, 0, "calcPr"@, false) {
        Some(t) => if find_from(b, 0, encode_utf8("fullCalcOnLoad"@)) is Some {
            None
        } else {
            Some(b.take(t.inner.1) + calc_attribute() + b.skip(t.inner.1))
        },
        None => match tag_called(b, 0, "workbook"@, true) {
            None => None,
            Some(t) => Some(b.take(t.at) + calc_element() + b.skip(t.at)),
        },
    }
}

/// The parts with that request in the workbook.
pub open spec fn calc_forced(p: Seq<Part>) -> Seq<Part> {
    match part_from(p, 0, "xl/workbook.xml"@) {
        None => p,
        Some(i) => match with_full_calc(p[i].data) {
            None => p,
            Some(data) => with_data(p, "xl/workbook.xml"@, data),
        },
    }
}

/// The parts as they are saved: without the calculation chain and with everything calculated when
/// the workbook is opened.
pub open spec fn final_parts(p: Seq<Part>) -> Seq<Part> {
    calc_forced(without_part(p, "xl/calcChain.xml"@))
}

/// The place of the first part called `name`.
pub fn entry_index(entries: &Vec<Entry>, name: &str) -> (r: Option<usize>)
    ensures
        match part_from(parts(entries@), 0, name@) {
            Some(k) => r matches Some(i) && i == k,
            None => r is None,
        },
        r matches Some(i) ==> i < entries@.len() && entries@[i as int].name@ == name@,
{
    let mut i: usize = 0;
    while i < entries.len()
        invariant
            i <= entries@.len(),
            part_from(parts(entries@), 0, name@) == part_from(parts(entries@), i as int, name@),
        decreases entries@.len() - i,
    {
        if same_text(entries[i].name.as_str(), name) {
            return Some(i);
        }
        i = i + 1;
    }
    None
}

/// Exchanges the data of the part at `i`.
pub fn set_data(entries: &mut Vec<Entry>, i: usize, data: Vec<u8>)
    requires
        i < old(entries)@.len(),
    ensures
        parts(final(entries)@) == parts(old(entries)@).update(
            i as int,
            Part { name: old(entries)@[i as int].name@, data: data@ },
        ),
        final(entries)@.len() == old(entries)@.len(),
{
    let ghost before = entries@;
    let name = entries[i].name.clone();
    entries.set(i, Entry { name, data });
    assert(parts(entries@) =~= parts(before).update(
        i as int,
        Part { name: before[i as int].name@, data: data@ },
    ));
}

/// Takes the elements called `name` out that name `x` or `y` in their attribute `key`.
fn drop_elements(b: &[u8], name: &str, key: &str, x: &str, y: &str) -> (r: Vec<u8>)
    ensures
        r@ == without_elements(b@, 0, name@, key@, x@, y@),
{
    let mut out: Vec<u8> = Vec::new();
    let mut pos: usize = 0;
    let end: usize = b.len();
    let ghost all = without_elements(b@, 0, name@, key@, x@, y@);
    assert(out@ + all =~= all);
    loop
        invariant
            end == b@.len(),
            pos <= b@.len(),
            all == without_elements(b@, 0, name@, key@, x@, y@),
            all == out@ + without_elements(b@, pos as int, name@, key@, x@, y@),
        decreases b@.len() - pos,
    {
        let ghost before = out@;
        match next_tag(b, pos) {
            None => {
                push_bytes(&mut out, slice_subrange(b, pos, end));
                assert(out@ =~= before + b@.skip(pos as int));
                return out;
            },
            Some((lt, info)) => {
                proof {
                    lemma_span_of(b@, info.at(lt as int));
                }
                let named = same_text(info.name.as_str(), name) && !info.closing && (
                match attr_value(slice_subrange(b, info.inner.0, info.inner.1), key) {
                    Some(v) => same_text(v.as_str(), x) || same_text(v.as_str(), y),
                    None => false,
                });
                let (upto, next): (usize, usize) = match element_span(b, lt, &info) {
                    Some(span) if named => (lt, span.1),
                    _ => (info.after, info.after),
                };
                push_bytes(&mut out, slice_subrange(b, pos, upto));
                proof {
                    let rest = without_elements(b@, next as int, name@, key@, x@, y@);
                    assert(before + (b@.subrange(pos as int, upto as int) + rest) =~= out@ + rest);
                }
                pos = next;
            },
        }
    }
}

/// The last piece of a path.
pub fn last_piece(path: &str) -> (r: String)
    ensures
        r@ == base_name(path@),
{
    let c = chars_of(path);
    let mut i: usize = c.len();
    assert(path@.take(i as int) =~= path@);
    assert(base_name(path@) =~= base_name(path@.take(i as int)) + path@.skip(i as int));
    while i > 0 && c[i - 1] != '/'
        invariant
            c@ == path@,
            i <= c@.len(),
            base_name(path@) == base_name(path@.take(i as int)) + path@.skip(i as int),
        decreases i,
    {
        proof {
            let t = path@.take(i as int);
            assert(t.drop_last() =~= path@.take(i - 1));
            assert(path@.skip(i - 1) =~= seq![path@[i - 1]] + path@.skip(i as int));
            assert(base_name(t.drop_last()).push(t.last()) + path@.skip(i as int) =~= base_name(
                path@.take(i - 1),
            ) + path@.skip(i - 1));
        }
        i = i - 1;
    }
    let r = text_of(&c, i, c.len());
    proof {
        if i > 0 {
            assert(path@.take(i as int).last() == '/');
        }
        assert(r@ =~= base_name(path@.take(i as int)) + path@.skip(i as int));
    }
    r
}

/// Copies the parts that are not called `part`.
fn other_entries(entries: &[Entry], part: &str) -> (r: Vec<Entry>)
    ensures
        parts(r@) == others(parts(entries@), part@),
{
    let ghost p = parts(entries@);
    let ghost pred = |x: Part| x.name != part@;
    let mut list: Vec<Entry> = Vec::new();
    let mut i: usize = 0;
    proof {
        reveal(Seq::filter);
        assert(p.take(0) =~= Seq::<Part>::empty());
        assert(parts(list@) =~= p.take(0).filter(pred));
    }
    while i < entries.len()
        invariant
            i <= entries@.len(),
            p == parts(entries@),
            pred == (|x: Part| x.name != part@),
            parts(list@) == p.take(i as int).filter(pred),
        decreases entries@.len() - i,
    {
        let ghost before = list@;
        proof {
            reveal(Seq::filter);
            assert(p.take(i + 1).drop_last() =~= p.take(i as int));
            assert(p[i as int] == entries@[i as int]@);
        }
        if !same_text(entries[i].name.as_str(), part) {
            let name = entries[i].name.clone();
            let data = bytes_of(entries[i].data.as_slice(), 0, entries[i].data.len());
            assert(data@ =~= entries@[i as int].data@);
            list.push(Entry { name, data });
            assert(parts(list@) =~= parts(before).push(p[i as int]));
        }
        i = i + 1;
    }
    assert(p.take(i as int) =~= p);
    list
}

/// The parts without those called `part`; where there was one, its content type and the workbook's
/// relationships to it are taken out too.
fn remove_part(entries: &[Entry], part: &str) -> (r: Vec<Entry>)
    ensures
        parts(r@) == without_part(parts(entries@), part@),
{
    let mut list = other_entries(entries, part);
    proof {
        lemma_others(parts(entries@), part@);
        assert(list@.len() == parts(list@).len());
    }
    if list.len() == entries.len() {
        return list;
    }
    let place = join2("/", part);
    if let Some(i) = entry_index(&list, "[Content_Types].xml") {
        let data = drop_elements(
            list[i].data.as_slice(),
            "Override",
            "PartName",
            place.as_str(),
            place.as_str(),
        );
        set_data(&mut list, i, data);
    }
    assert(parts(list@) == unlisted(others(parts(entries@), part@), part@));
    if let Some(i) = entry_index(&list, "xl/_rels/workbook.xml.rels") {
        let base = last_piece(part);
        let data = drop_elements(
            list[i].data.as_slice(),
            "Relationship",
            "Target",
            base.as_str(),
            place.as_str(),
        );
        set_data(&mut list, i, data);
    }
    list
}

/// The parts that are not called `part` are all of them exactly where none is called so, and each of
/// them is one of the parts.
proof fn lemma_others(p: Seq<Part>, part: Seq<char>)
    ensures
        others(p, part).len() <= p.len(),
        part_from(p, 0, part) is None ==> others(p, part) == p,
        part_from(p, 0, part) is Some ==> others(p, part).len() < p.len(),
        forall|i: int|
            0 <= i < others(p, part).len() ==> (#[trigger] others(p, part)[i]).name != part
                && p.contains(others(p, part)[i]),
    decreases p.len(),
{
    reveal(Seq::filter);
    let pred = |x: Part| x.name != part;
    lemma_part_from(p, 0, part);
    if p.len() > 0 {
        let front = p.drop_last();
        lemma_others(front, part);
        lemma_part_from(front, 0, part);
        assert(others(p, part) == (if pred(p.last()) {
            others(front, part).push(p.last())
        } else {
            others(front, part)
        }));
        assert(p =~= front.push(p.last()));
        assert forall|i: int| 0 <= i < others(p, part).len() implies (#[trigger] others(
            p,
            part,
        )[i]).name != part && p.contains(others(p, part)[i]) by {
            if i < others(front, part).len() {
                assert(others(p, part)[i] == others(front, part)[i]);
                let k = choose|k: int| 0 <= k < front.len() && front[k] == others(front, part)[i];
                assert(p[k] == others(p, part)[i]);
            } else {
                assert(p[p.len() - 1] == others(p, part)[i]);
            }
        }
        if part_from(p, 0, part) is None {
            assert forall|j: int| 0 <= j < front.len() implies (#[trigger] front[j]).name
                != part by {
                assert(front[j] == p[j]);
            }
            assert(p[p.len() - 1].name != part);
        } else if part_from(front, 0, part) is None {
            let k = part_from(p, 0, part).unwrap();
            if k < front.len() {
                assert(front[k] == p[k]);
            }
        }
    } else {
        assert(others(p, part) =~= p);
    }
}

/// Finds the first tag called `name`, opening or closing.
fn find_tag(b: &[u8], name: &str, closing: bool) -> (r: Option<(usize, TagInfo)>)
    ensures
        found_tag(r) == tag_called(b@, 0, name@, closing),
        r matches Some((lt, info)) ==> tag_bounds(b@, 0, info.at(lt as int)),
{
    let mut pos: usize = 0;
    let end: usize = b.len();
    loop
        invariant
            end == b@.len(),
            tag_called(b@, 0, name@, closing) == tag_called(b@, pos as int, name@, closing),
        decreases b@.len() + 1 - pos,
    {
        proof {
            lemma_tag_from(b@, pos as int);
        }
        match next_tag(b, pos) {
            None => {
                return None;
            },
            Some((lt, info)) => {
                if same_text(info.name.as_str(), name) && info.closing == closing {
                    return Some((lt, info));
                }
                pos = lt + 1;
            },
        }
    }
}

/// The bytes with a text put in at `at`.
fn put_in(b: &[u8], at: usize, text: &str) -> (r: Vec<u8>)
    requires
        at <= b@.len(),
    ensures
        r@ == b@.take(at as int) + encode_utf8(text@) + b@.skip(at as int),
{
    let mut out = bytes_of(b, 0, at);
    push_text(&mut out, text);
    push_bytes(&mut out, slice_subrange(b, at, b.len()));
    assert(out@ =~= b@.take(at as int) + encode_utf8(text@) + b@.skip(at as int));
    out
}

/// Puts the request to calculate everything into the workbook's own part.
fn request_calc(b: &[u8]) -> (r: Option<Vec<u8>>)
    ensures
        match with_full_calc(b@) {
            Some(t) => r matches Some(v) && v@ == t,
            None => r is None,
        },
{
    proof {
        reveal_strlit("fullCalcOnLoad");
        lemma_encode_nonempty("fullCalcOnLoad"@);
    }
    match find_tag(b, "calcPr", false) {
        Some((_, info)) => {
            if find_byte(b, 0, "fullCalcOnLoad".as_bytes()).is_some() {
                None
            } else {
                Some(put_in(b, info.inner.1, " fullCalcOnLoad=\"1\""))
            }
        },
        None => match find_tag(b, "workbook", true) {
            None => None,
            Some((lt, _)) => Some(
                put_in(b, lt, "<calcPr calcId=\"140000\" fullCalcOnLoad=\"1\"/>"),
            ),
        },
    }
}

/// Makes the workbook calculate everything when it is opened.
fn force_full_calc(entries: &mut Vec<Entry>)
    ensures
        parts(final(entries)@) == calc_forced(parts(old(entries)@)),
{
    if let Some(i) = entry_index(entries, "xl/workbook.xml") {
        if let Some(data) = request_calc(entries[i].data.as_slice()) {
            set_data(entries, i, data);
        }
    }
}

/// The names of the parts that are saved are names that were there.
pub proof fn lemma_final_names(p: Seq<Part>)
    requires
        names_fit(p),
    ensures
        names_fit(final_parts(p)),
        final_parts(p).len() <= p.len(),
{
    let kept = others(p, "xl/calcChain.xml"@);
    law_final_parts(p);
    lemma_others(p, "xl/calcChain.xml"@);
    assert forall|i: int| 0 <= i < final_parts(p).len() implies encode_utf8(
        (#[trigger] final_parts(p)[i]).name,
    ).len() <= 65535 by {
        assert(final_parts(p)[i].name == kept[i].name);
        let k = choose|k: int| 0 <= k < p.len() && p[k] == kept[i];
        assert(encode_utf8(p[k].name).len() <= 65535);
    }
}

/// Exchanging the data of the first part with a name keeps all names and all other data.
proof fn lemma_with_data(p: Seq<Part>, name: Seq<char>, data: Seq<u8>)
    ensures
        with_data(p, name, data).len() == p.len(),
        forall|i: int|
            0 <= i < p.len() ==> (#[trigger] with_data(p, name, data)[i]).name == p[i].name && (
            p[i].name != name ==> with_data(p, name, data)[i].data == p[i].data),
        part_from(p, 0, name) matches Some(i) ==> 0 <= i < p.len() && p[i].name == name,
{
    lemma_part_from(p, 0, name);
}

/// What is saved has no calculation chain; all other parts are there under their names and in
/// their order. Each of them is the same byte for byte but for the workbook's own and, where there
/// was a calculation chain, the content types and the workbook's relationships.
pub proof fn law_final_parts(p: Seq<Part>)
    ensures
        ({
            let chain = part_from(p, 0, "xl/calcChain.xml"@);
            let kept = others(p, "xl/calcChain.xml"@);
            let saved = final_parts(p);
            &&& part_from(saved, 0, "xl/calcChain.xml"@) is None
            &&& saved.len() == kept.len()
            &&& chain is None ==> kept == p
            &&& forall|i: int|
                0 <= i < saved.len() ==> (#[trigger] saved[i]).name == kept[i].name && (
                saved[i].data == kept[i].data || saved[i].name == "xl/workbook.xml"@ || (
                chain is Some && (saved[i].name == "[Content_Types].xml"@ || saved[i].name
                    == "xl/_rels/workbook.xml.rels"@)))
        }),
{
    let chain = "xl/calcChain.xml"@;
    let kept = others(p, chain);
    lemma_others(p, chain);
    let a = unlisted(kept, chain);
    let cleaned = without_part(p, chain);
    let saved = final_parts(p);
    if let Some(i) = part_from(kept, 0, "[Content_Types].xml"@) {
        lemma_with_data(kept, "[Content_Types].xml"@, unlisted_data(kept[i].data, chain));
    }
    if let Some(i) = part_from(a, 0, "xl/_rels/workbook.xml.rels"@) {
        lemma_with_data(a, "xl/_rels/workbook.xml.rels"@, unrelated_data(a[i].data, chain));
    }
    if let Some(i) = part_from(cleaned, 0, "xl/workbook.xml"@) {
        if let Some(data) = with_full_calc(cleaned[i].data) {
            lemma_with_data(cleaned, "xl/workbook.xml"@, data);
        }
    }
    assert forall|i: int| 0 <= i < saved.len() implies (#[trigger] saved[i]).name == kept[i].name
        && (saved[i].data == kept[i].data || saved[i].name == "xl/workbook.xml"@ || (part_from(
        p,
        0,
        chain,
    ) is Some && (saved[i].name == "[Content_Types].xml"@ || saved[i].name
        == "xl/_rels/workbook.xml.rels"@))) by {
        assert(saved[i].name == cleaned[i].name);
        if part_from(p, 0, chain) is Some {
            assert(cleaned[i].name == a[i].name);
            assert(a[i].name == kept[i].name);
        }
    }
    lemma_part_from(saved, 0, chain);
    if let Some(k) = part_from(saved, 0, chain) {
        assert(saved[k].name == kept[k].name);
    }
}

/// A package without a calculation chain and without directories is saved with all its parts: in
/// their order, under their names, and byte for byte but for the workbook's own. What is read back
/// of what was saved is this.
pub proof fn law_saved_package(p: Seq<Part>)
    requires
        part_from(p, 0, "xl/calcChain.xml"@) is None,
        are_files(p),
    ensures
        ({
            let saved = files(final_parts(p));
            &&& saved.len() == p.len()
            &&& forall|i: int|
                0 <= i < p.len() ==> (#[trigger] saved[i]).name == p[i].name && (p[i].name
                    != "xl/workbook.xml"@ ==> saved[i].data == p[i].data)
        }),
{
    law_final_parts(p);
    lemma_final_files(p);
}

/// Where no part is a directory, none of those that are saved is.
pub proof fn lemma_final_files(p: Seq<Part>)
    requires
        are_files(p),
    ensures
        are_files(final_parts(p)),
        files(final_parts(p)) == final_parts(p),
{
    let kept = others(p, "xl/calcChain.xml"@);
    let saved = final_parts(p);
    law_final_parts(p);
    lemma_others(p, "xl/calcChain.xml"@);
    assert forall|i: int| 0 <= i < saved.len() implies !is_dir_name((#[trigger] saved[i]).name) by {
        assert(saved[i].name == kept[i].name);
        let k = choose|k: int| 0 <= k < p.len() && p[k] == kept[i];
        assert(!is_dir_name(p[k].name));
    }
    lemma_all_files(saved);
}

/// Where no part is a directory, all of them are files.
proof fn lemma_all_files(p: Seq<Part>)
    requires
        are_files(p),
    ensures
        files(p) == p,
    decreases p.len(),
{
    if p.len() > 0 {
        let rest = p.drop_first();
        assert forall|i: int| 0 <= i < rest.len() implies !is_dir_name(
            (#[trigger] rest[i]).name,
        ) by {
            assert(rest[i] == p[i + 1]);
        }
        lemma_all_files(rest);
        assert(!is_dir_name(p[0].name));
        assert(seq![p[0]] + rest =~= p);
    }
    assert(files(p) =~= p);
}

/// Packs the workbook for saving: without the calculation chain, with the request to calculate
/// everything when it is opened.
pub fn finalize_and_write(entries: &[Entry]) -> (r: Result<Vec<u8>, String>)
    requires
        names_fit(parts(entries@)),
    ensures
        match packed(final_parts(parts(entries@))) {
            Ok(b) => r matches Ok(v) && v@ == b,
            Err(e) => r matches Err(t) && t@ == e,
        },
        r matches Ok(v) ==> entries@.len() < 65535 && v@.len() < 0xffff_ffff ==> parts_in(v@)
            == Ok::<Seq<Part>, Seq<char>>(files(final_parts(parts(entries@)))),
{
    let ghost p = parts(entries@);
    let mut list = remove_part(entries, "xl/calcChain.xml");
    force_full_calc(&mut list);
    proof {
        lemma_final_names(p);
        assert(list@.len() == parts(list@).len());
    }
    write_entries(list.as_slice())
}

} // verus!
