use vstd::prelude::*;
use crate::error::WPPkgFsError;
use crate::limited::{window_read, LimitedBinaryStream};
use crate::stream::{available, le_value, sized_string_at, Endian, FsBinaryStream};

verus! {

/// One entry of a container as the contracts see it.
pub struct EntryView {
    pub path: Seq<char>,
    pub offset: int,
    pub length: int,
}

/// Whether the text begins with `PKG`.
pub open spec fn has_pkg_prefix(s: Seq<char>) -> bool {
    s.len() >= 3 && s[0] == 'P' && s[1] == 'K' && s[2] == 'G'
}

/// The little-endian `u32` stored at `pos`.
pub open spec fn u32_at(d: Seq<u8>, pos: int) -> int {
    le_value(d.subrange(pos, pos + 4)) as int
}

/// The table record at `pos`: its path (with a leading `/`), its offset
/// relative to the payload region and its length, and the position after it.
pub open spec fn record_at(d: Seq<u8>, pos: int) -> Result<(EntryView, int), WPPkgFsError> {
    match sized_string_at(d, pos, Endian::LittleEndian) {
        Err(e) => Err(e),
        Ok((name, q)) => if !available(d, q, 8) {
            Err(WPPkgFsError::UnexpectedEof)
        } else {
            Ok((EntryView { path: seq!['/'] + name, offset: u32_at(d, q), length: u32_at(d, q + 4) }, q + 8))
        },
    }
}

/// The first `k` table records from `pos`, and the position after them.
pub open spec fn records(d: Seq<u8>, pos: int, k: nat) -> Result<(Seq<EntryView>, int), WPPkgFsError>
    decreases k,
{
    if k == 0 {
        Ok((Seq::empty(), pos))
    } else {
        match records(d, pos, (k - 1) as nat) {
            Err(e) => Err(e),
            Ok((es, q)) => match record_at(d, q) {
                Err(e) => Err(e),
                Ok((r, q2)) => Ok((es.push(r), q2)),
            },
        }
    }
}

/// The header string and the position after it.
pub open spec fn header(d: Seq<u8>) -> Result<(Seq<char>, int), WPPkgFsError> {
    sized_string_at(d, 0, Endian::LittleEndian)
}

/// The entry table with relative offsets, and the offset of the payload
/// region that follows it.
pub open spec fn table(d: Seq<u8>) -> Result<(Seq<EntryView>, int), WPPkgFsError> {
    match header(d) {
        Err(e) => Err(e),
        Ok((ver, p)) => if !has_pkg_prefix(ver) {
            Err(WPPkgFsError::InvalidFileHeader)
        } else if !available(d, p, 4) {
            Err(WPPkgFsError::UnexpectedEof)
        } else {
            records(d, p + 4, u32_at(d, p) as nat)
        },
    }
}

/// The entry `e` of a table whose payload region starts at `base`, with its
/// offset made absolute.
pub open spec fn placed(e: EntryView, base: int) -> EntryView {
    EntryView { path: e.path, offset: base + e.offset, length: e.length }
}

/// The entry's payload lies within `size` bytes once placed at `base`.
pub open spec fn fits(e: EntryView, base: int, size: int) -> bool {
    base + e.offset + e.length <= size
}

/// The index of a container: its entries in table order with absolute
/// offsets, or the error that reading it meets first.
pub open spec fn parse_model(d: Seq<u8>) -> Result<Seq<EntryView>, WPPkgFsError> {
    match table(d) {
        Err(e) => Err(e),
        Ok((rel, base)) => if exists|i: int| 0 <= i < rel.len() && !fits(#[trigger] rel[i], base, d.len() as int) {
            Err(WPPkgFsError::UnexpectedEof)
        } else {
            Ok(rel.map_values(|e: EntryView| placed(e, base)))
        },
    }
}

/// Some entry has the path `p`.
pub open spec fn has_path(es: Seq<EntryView>, p: Seq<char>) -> bool {
    exists|i: int| 0 <= i < es.len() && (#[trigger] es[i]).path == p
}

/// Entry `i` is the first with the path `p`.
pub open spec fn is_first(es: Seq<EntryView>, p: Seq<char>, i: int) -> bool {
    &&& 0 <= i < es.len()
    &&& es[i].path == p
    &&& forall|j: int| 0 <= j < i ==> (#[trigger] es[j]).path != p
}

/// One stored asset: its virtual path and the absolute byte range of its payload.
#[derive(Debug)]
pub struct PkgFile {
    pub path: String,
    pub offset: u64,
    pub length: u64,
}

impl View for PkgFile {
    type V = EntryView;

    open spec fn view(&self) -> EntryView {
        EntryView { path: self.path@, offset: self.offset as int, length: self.length as int }
    }
}

impl PkgFile {
    pub fn new(path: String, offset: u64, length: u64) -> (r: Self)
        ensures
            r.path@ == path@,
            r.offset == offset,
            r.length == length,
    {
        PkgFile { path, offset, length }
    }
}

/// A parsed container: the path of its backing file and its entries in
/// table order.
#[derive(Debug)]
pub struct WPPkgFs {
    pub path: String,
    pub files: Vec<PkgFile>,
}

impl WPPkgFs {
    /// The entries as the contracts see them.
    pub open spec fn entries(&self) -> Seq<EntryView> {
        self.files@.map_values(|f: PkgFile| f@)
    }

    /// Every payload range can be expressed in absolute `u64` offsets.
    pub open spec fn wf(&self) -> bool {
        forall|i: int| 0 <= i < self.files@.len()
            ==> (#[trigger] self.files@[i]).offset + self.files@[i].length <= u64::MAX
    }

    fn new(path: String) -> (r: Self)
        ensures
            r.path@ == path@,
            r.files@.len() == 0,
    {
        WPPkgFs { path, files: Vec::new() }
    }

    fn push_file(&mut self, file: PkgFile)
        ensures
            final(self).path == old(self).path,
            final(self).files@ == old(self).files@.push(file),
    {
        self.files.push(file);
    }
}

/// Whether a header string marks a container: it begins with `PKG`.
pub fn is_pkg_header(s: &String) -> (r: bool)
    ensures
        r == has_pkg_prefix(s@),
{
    let t: &str = s.as_str();
    t.unicode_len() >= 3 && t.get_char(0) == 'P' && t.get_char(1) == 'K' && t.get_char(2) == 'G'
}

/// Reads the table record at the stream's position into a file entry
/// whose path carries a leading `/`.
fn read_record(stream: &mut FsBinaryStream) -> (r: Result<PkgFile, WPPkgFsError>)
    requires
        old(stream).order() == Endian::LittleEndian,
    ensures
        final(stream).content() == old(stream).content(),
        final(stream).order() == Endian::LittleEndian,
        match r {
            Ok(f) => record_at(old(stream).content(), old(stream).pos() as int)
                == Ok::<(EntryView, int), WPPkgFsError>((f@, final(stream).pos() as int)),
            Err(e) => record_at(old(stream).content(), old(stream).pos() as int)
                == Err::<(EntryView, int), WPPkgFsError>(e),
        },
{
    let name = stream.read_sized_string()?;
    let ghost q = stream.pos() as int;
    let offset = match stream.read_u32() {
        Ok(v) => v,
        Err(e) => {
            assert(!available(stream.content(), q, 8));
            return Err(e);
        },
    };
    let length = match stream.read_u32() {
        Ok(v) => v,
        Err(e) => {
            assert(!available(stream.content(), q, 8));
            return Err(e);
        },
    };
    proof {
        let d = stream.content();
        assert(d.subrange(q, q + 4) == old(stream).content().subrange(q, q + 4));
    }
    let mut path = String::from_str("/");
    path.append(name.as_str());
    proof {
        reveal_strlit("/");
        assert(path@ =~= seq!['/'] + name@);
    }
    Ok(PkgFile::new(path, offset as u64, length as u64))
}

impl WPPkgFs {
    /// Parses the container `data`, read from the file at `filepath`: the
    /// header must begin with `PKG`, and every entry's payload must lie within
    /// `data`. Entries keep table order; their offsets become absolute.
    #[verifier::loop_isolation(false)]
    pub fn parse(filepath: &str, data: Vec<u8>) -> (r: Result<WPPkgFs, WPPkgFsError>)
        ensures
            match r {
                Ok(fs) => {
                    &&& parse_model(data@) == Ok::<Seq<EntryView>, WPPkgFsError>(fs.entries())
                    &&& fs.path@ == filepath@
                    &&& fs.wf()
                },
                Err(e) => parse_model(data@) == Err::<Seq<EntryView>, WPPkgFsError>(e),
            },
    {
        let ghost d = data@;
        let size: u64 = data.len() as u64;
        let mut stream = FsBinaryStream::new(data);
        let ver = stream.read_sized_string()?;
        if !is_pkg_header(&ver) {
            return Err(WPPkgFsError::InvalidFileHeader);
        }
        let ghost p = stream.pos() as int;
        let entry_count = stream.read_u32()?;
        let mut rel: Vec<PkgFile> = Vec::new();
        let mut i: u32 = 0;
        assert(rel@.map_values(|f: PkgFile| f@) =~= Seq::<EntryView>::empty());
        assert(table(d) == records(d, p + 4, entry_count as nat));
        while i < entry_count
            invariant
                i <= entry_count,
                entry_count as int == u32_at(d, p),
                table(d) == records(d, p + 4, entry_count as nat),
                stream.content() == d,
                stream.order() == Endian::LittleEndian,
                records(d, p + 4, i as nat) == Ok::<(Seq<EntryView>, int), WPPkgFsError>(
                    (rel@.map_values(|f: PkgFile| f@), stream.pos() as int),
                ),
            decreases entry_count - i,
        {
            match read_record(&mut stream) {
                Ok(f) => {
                    let ghost before = rel@;
                    let ghost fv = f@;
                    rel.push(f);
                    assert(rel@.map_values(|f: PkgFile| f@) =~= before.map_values(|f: PkgFile| f@).push(fv));
                },
                Err(e) => {
                    proof {
                        assert(records(d, p + 4, (i + 1) as nat) == Err::<(Seq<EntryView>, int), WPPkgFsError>(e));
                        lemma_records_err(d, p + 4, (i + 1) as nat, entry_count as nat);
                        assert(table(d) == Err::<(Seq<EntryView>, int), WPPkgFsError>(e));
                    }
                    return Err(e);
                },
            }
            i = i + 1;
        }
        let base: u64 = stream.get_position();
        let mut pkgfs = WPPkgFs::new(String::from_str(filepath));
        let mut k: usize = 0;
        while k < rel.len()
            invariant
                k <= rel@.len(),
                base <= size,
                size as int == d.len(),
                table(d) == Ok::<(Seq<EntryView>, int), WPPkgFsError>(
                    (rel@.map_values(|f: PkgFile| f@), base as int),
                ),
                pkgfs.path@ == filepath@,
                pkgfs.files@.len() == k,
                forall|j: int| 0 <= j < k ==> fits(#[trigger] rel@[j]@, base as int, size as int),
                forall|j: int| 0 <= j < k ==> (#[trigger] pkgfs.files@[j])@ == placed(rel@[j]@, base as int),
            decreases rel@.len() - k,
        {
            let f = &rel[k];
            if f.offset > size - base || f.length > size - base - f.offset {
                let ghost rm = rel@.map_values(|f: PkgFile| f@);
                assert(rm[k as int] == rel@[k as int]@);
                assert(!fits(rm[k as int], base as int, size as int));
                assert(parse_model(d) == Err::<Seq<EntryView>, WPPkgFsError>(WPPkgFsError::UnexpectedEof));
                return Err(WPPkgFsError::UnexpectedEof);
            }
            let path = f.path.clone();
            pkgfs.push_file(PkgFile::new(path, base + f.offset, f.length));
            k = k + 1;
        }
        proof {
            let rm = rel@.map_values(|f: PkgFile| f@);
            assert forall|j: int| 0 <= j < rm.len() implies fits(#[trigger] rm[j], base as int, d.len() as int) by {
                assert(rm[j] == rel@[j]@);
            }
        }
        assert(pkgfs.entries() =~= rel@.map_values(|f: PkgFile| f@).map_values(|e: EntryView| placed(e, base as int)));
        Ok(pkgfs)
    }
}

impl WPPkgFs {
    /// The index of the first entry whose path is `path`.
    fn find(&self, path: &str) -> (r: Option<usize>)
        ensures
            r is Some <==> has_path(self.entries(), path@),
            r matches Some(i) ==> is_first(self.entries(), path@, i as int),
    {
        let target = String::from_str(path);
        let mut i: usize = 0;
        while i < self.files.len()
            invariant
                i <= self.files@.len(),
                target@ == path@,
                forall|j: int| 0 <= j < i ==> (#[trigger] self.files@[j]).path@ != path@,
            decreases self.files@.len() - i,
        {
            if self.files[i].path == target {
                proof {
                    let es = self.entries();
                    assert forall|j: int| 0 <= j < i implies (#[trigger] es[j]).path != path@ by {
                        assert(es[j] == self.files@[j]@);
                    }
                    assert(es[i as int] == self.files@[i as int]@);
                }
                return Some(i);
            }
            i = i + 1;
        }
        proof {
            let es = self.entries();
            if has_path(es, path@) {
                let j = choose|j: int| 0 <= j < es.len() && (#[trigger] es[j]).path == path@;
                assert(es[j] == self.files@[j]@);
            }
        }
        None
    }

    /// Whether some entry has exactly the path `path`.
    pub fn contains(&self, path: &str) -> (r: bool)
        ensures
            r == has_path(self.entries(), path@),
    {
        self.find(path).is_some()
    }

    /// The paths of all entries, in table order.
    pub fn list(&self) -> (r: Vec<String>)
        ensures
            r@.len() == self.files@.len(),
            forall|i: int| 0 <= i < r@.len() ==> (#[trigger] r@[i])@ == self.entries()[i].path,
    {
        let mut out: Vec<String> = Vec::new();
        let mut i: usize = 0;
        while i < self.files.len()
            invariant
                i <= self.files@.len(),
                out@.len() == i,
                forall|j: int| 0 <= j < i ==> (#[trigger] out@[j])@ == self.files@[j].path@,
            decreases self.files@.len() - i,
        {
            out.push(self.files[i].path.clone());
            i = i + 1;
        }
        out
    }

    /// A reader over the payload of the first entry whose path is `path`,
    /// backed by `container`, a fresh copy of the container's bytes; `None`
    /// when no entry has that path.
    pub fn open(&self, path: &str, container: Vec<u8>) -> (r: Option<LimitedBinaryStream>)
        requires
            self.wf(),
        ensures
            r is Some <==> has_path(self.entries(), path@),
            r matches Some(rd) ==> {
                &&& rd.wf()
                &&& rd.content() == container@
                &&& exists|i: int| #![trigger self.entries()[i]]
                    is_first(self.entries(), path@, i)
                    && rd.window_start() == self.entries()[i].offset
                    && rd.window_end() == self.entries()[i].offset + self.entries()[i].length
                    && rd.pos() == self.entries()[i].offset
            },
    {
        match self.find(path) {
            None => None,
            Some(i) => {
                let f = &self.files[i];
                let rd = LimitedBinaryStream::new(FsBinaryStream::new(container), f.offset, f.length);
                assert(self.entries()[i as int] == f@);
                Some(rd)
            },
        }
    }
}

pub proof fn lemma_records_err(d: Seq<u8>, pos: int, i: nat, k: nat)
    requires
        i <= k,
        records(d, pos, i) is Err,
    ensures
        records(d, pos, k) == records(d, pos, i),
    decreases k - i,
{
    if i < k {
        lemma_records_err(d, pos, i, (k - 1) as nat);
    }
}

pub proof fn lemma_records_shape(d: Seq<u8>, pos: int, k: nat)
    requires
        records(d, pos, k) is Ok,
    ensures
        records(d, pos, k)->Ok_0.0.len() == k,
        records(d, pos, k)->Ok_0.1 >= pos,
        forall|j: int| 0 <= j < k ==> (#[trigger] records(d, pos, k)->Ok_0.0[j]).offset >= 0
            && records(d, pos, k)->Ok_0.0[j].length >= 0,
    decreases k,
{
    if k > 0 {
        lemma_records_shape(d, pos, (k - 1) as nat);
        let prev = records(d, pos, (k - 1) as nat)->Ok_0.0;
        let es = records(d, pos, k)->Ok_0.0;
        assert forall|j: int| 0 <= j < k implies (#[trigger] es[j]).offset >= 0 && es[j].length >= 0 by {
            if j < k - 1 {
                assert(es[j] == prev[j]);
            }
        }
    }
}

/// A container that parses holds exactly as many entries as its table
/// declares after the header.
pub proof fn lemma_entry_count(d: Seq<u8>)
    requires
        parse_model(d) is Ok,
    ensures
        header(d) is Ok,
        parse_model(d)->Ok_0.len() == u32_at(d, header(d)->Ok_0.1),
{
    let p = header(d)->Ok_0.1;
    lemma_records_shape(d, p + 4, u32_at(d, p) as nat);
}

/// Listing agrees with membership: for any sequence of paths that matches
/// the entries one for one (what `list` returns), a path is contained
/// exactly when it is listed, and there are as many paths as entries.
pub proof fn lemma_list_matches_contains(fs: &WPPkgFs, listed: Seq<Seq<char>>, p: Seq<char>)
    requires
        listed.len() == fs.files@.len(),
        forall|i: int| 0 <= i < listed.len() ==> #[trigger] listed[i] == fs.entries()[i].path,
    ensures
        listed.len() == fs.entries().len(),
        has_path(fs.entries(), p) <==> listed.contains(p),
{
    let es = fs.entries();
    if has_path(es, p) {
        let i = choose|i: int| 0 <= i < es.len() && (#[trigger] es[i]).path == p;
        assert(listed[i] == p);
    }
    if listed.contains(p) {
        let i = choose|i: int| 0 <= i < listed.len() && listed[i] == p;
        assert(es[i].path == p);
    }
}

/// Offset law: each parsed entry's absolute offset is the payload region's
/// start plus its table offset, and its payload ends within the container;
/// a table whose payload would run past the end is refused with
/// `UnexpectedEof`.
pub proof fn lemma_offset_law(d: Seq<u8>)
    ensures
        match table(d) {
            Err(e) => parse_model(d) == Err::<Seq<EntryView>, WPPkgFsError>(e),
            Ok((rel, base)) => match parse_model(d) {
                Ok(es) => {
                    &&& es.len() == rel.len()
                    &&& forall|i: int| 0 <= i < es.len() ==> {
                        &&& (#[trigger] es[i]).offset == base + rel[i].offset
                        &&& es[i].length == rel[i].length
                        &&& es[i].path == rel[i].path
                        &&& es[i].offset + es[i].length <= d.len()
                    }
                },
                Err(e) => {
                    &&& e == WPPkgFsError::UnexpectedEof
                    &&& exists|i: int| 0 <= i < rel.len() && !fits(#[trigger] rel[i], base, d.len() as int)
                },
            },
        },
{
}

/// Parsing is a function of the bytes: identical containers give identical
/// entry sequences, in identical order, or the same error.
pub proof fn lemma_parse_deterministic(d1: Seq<u8>, d2: Seq<u8>)
    requires
        d1 == d2,
    ensures
        parse_model(d1) == parse_model(d2),
{
}

/// Round trip: for an entry that is the first with its path, the reader
/// that `open` gives for that path covers exactly this entry; asking it for
/// `length` bytes yields the bytes stored at the entry's offset, and asking
/// for one more byte then fails with `EndOfWindow`.
pub proof fn lemma_round_trip(d: Seq<u8>, i: int)
    requires
        parse_model(d) is Ok,
        0 <= i < parse_model(d)->Ok_0.len(),
        forall|j: int| 0 <= j < i ==> (#[trigger] parse_model(d)->Ok_0[j]).path != parse_model(d)->Ok_0[i].path,
    ensures
        ({
            let es = parse_model(d)->Ok_0;
            let start = es[i].offset;
            let end = es[i].offset + es[i].length;
            &&& is_first(es, es[i].path, i)
            &&& forall|j: int| is_first(es, es[i].path, j) ==> j == i
            &&& window_read(d, start, end, es[i].length) == Ok::<Seq<u8>, WPPkgFsError>(d.subrange(start, end))
            &&& window_read(d, end, end, 1) == Err::<Seq<u8>, WPPkgFsError>(WPPkgFsError::EndOfWindow)
        }),
{
    let es = parse_model(d)->Ok_0;
    let p = header(d)->Ok_0.1;
    lemma_records_shape(d, p + 4, u32_at(d, p) as nat);
    lemma_offset_law(d);
    let rel = table(d)->Ok_0.0;
    let base = table(d)->Ok_0.1;
    assert(p >= 4);
    assert(base >= p + 4);
    assert(rel[i].offset >= 0);
    let start = es[i].offset;
    let end = es[i].offset + es[i].length;
    assert(0 <= start <= end <= d.len());
    assert(available(d, start, es[i].length));
    assert forall|j: int| is_first(es, es[i].path, j) implies j == i by {
        if j < i {
            assert(es[j].path != es[i].path);
        }
        if i < j {
            assert(es[i].path != es[i].path);
        }
    }
}

/// A header string that does not begin with `PKG` is refused with
/// `InvalidFileHeader`, and the decision rests on the header record alone:
/// any container that agrees on those bytes is refused the same way.
pub proof fn lemma_bad_header(d: Seq<u8>, other: Seq<u8>)
    requires
        header(d) is Ok,
        !has_pkg_prefix(header(d)->Ok_0.0),
        header(d)->Ok_0.1 <= other.len(),
        other.subrange(0, header(d)->Ok_0.1) == d.subrange(0, header(d)->Ok_0.1),
    ensures
        parse_model(d) == Err::<Seq<EntryView>, WPPkgFsError>(WPPkgFsError::InvalidFileHeader),
        parse_model(other) == Err::<Seq<EntryView>, WPPkgFsError>(WPPkgFsError::InvalidFileHeader),
{
    let p = header(d)->Ok_0.1;
    let pre = d.subrange(0, p);
    assert(other.subrange(0, 4) =~= pre.subrange(0, 4));
    assert(d.subrange(0, 4) =~= pre.subrange(0, 4));
    assert(other.subrange(4, p) =~= pre.subrange(4, p));
    assert(d.subrange(4, p) =~= pre.subrange(4, p));
    assert(header(other) == header(d));
}

} // verus!
