//! How the places get from the storage card into memory: whether what was kept is still good,
//! the bytes of a file read block by block, and the places with their names laid out in the
//! strings file.

use vstd::prelude::*;
use vstd::utf8::{decode_utf8, encode_utf8, encode_utf8_decode_utf8, encode_utf8_valid_utf8, valid_utf8};
use crate::locations::{IoError, LocNode, LocParseError, LocTree, NameData};
use crate::locations::agree::law_reading_follows_the_grammar;
use crate::locations::geojson::FeatureText;
use crate::locations::json::reports;
use crate::locations::source::{broken, document, finished, next, run, At, SourceReader, Turn};
use crate::text::piece;

verus! {

/// When a file was made or changed, as a card records it.
#[derive(Debug, Clone, Copy, PartialEq, Eq, Structural)]
pub struct Timestamp {
    pub year_since_1970: u8,
    pub zero_indexed_month: u8,
    pub zero_indexed_day: u8,
    pub hours: u8,
    pub minutes: u8,
    pub seconds: u8,
}

impl Timestamp {
    /// Whether this is before `other`: the first of year, month, day, hours, minutes and seconds
    /// in which they differ decides.
    pub open spec fn before(self, other: Timestamp) -> bool {
        if self.year_since_1970 != other.year_since_1970 {
            self.year_since_1970 < other.year_since_1970
        } else if self.zero_indexed_month != other.zero_indexed_month {
            self.zero_indexed_month < other.zero_indexed_month
        } else if self.zero_indexed_day != other.zero_indexed_day {
            self.zero_indexed_day < other.zero_indexed_day
        } else if self.hours != other.hours {
            self.hours < other.hours
        } else if self.minutes != other.minutes {
            self.minutes < other.minutes
        } else {
            self.seconds < other.seconds
        }
    }

    /// The later of `a` and `b`.
    pub open spec fn later(a: Timestamp, b: Timestamp) -> Timestamp {
        if a.before(b) {
            b
        } else {
            a
        }
    }

    fn is_before(&self, other: &Timestamp) -> (r: bool)
        ensures
            r == self.before(*other),
    {
        if self.year_since_1970 != other.year_since_1970 {
            self.year_since_1970 < other.year_since_1970
        } else if self.zero_indexed_month != other.zero_indexed_month {
            self.zero_indexed_month < other.zero_indexed_month
        } else if self.zero_indexed_day != other.zero_indexed_day {
            self.zero_indexed_day < other.zero_indexed_day
        } else if self.hours != other.hours {
            self.hours < other.hours
        } else if self.minutes != other.minutes {
            self.minutes < other.minutes
        } else {
            self.seconds < other.seconds
        }
    }
}

/// When a file was made, and when it was changed.
#[derive(Debug, Clone, Copy, PartialEq, Eq, Structural)]
pub struct FileTimes {
    pub ctime: Timestamp,
    pub mtime: Timestamp,
}

impl FileTimes {
    /// When the file was last touched.
    pub open spec fn last(self) -> Timestamp {
        Timestamp::later(self.ctime, self.mtime)
    }

    /// When the file was last touched.
    pub fn touched(&self) -> (r: Timestamp)
        ensures
            r == self.last(),
    {
        if self.ctime.is_before(&self.mtime) {
            self.mtime
        } else {
            self.ctime
        }
    }
}

/// The later of two times is one of them, and neither is after it.
pub proof fn law_later(a: Timestamp, b: Timestamp)
    ensures
        Timestamp::later(a, b) == a || Timestamp::later(a, b) == b,
        !Timestamp::later(a, b).before(a),
        !Timestamp::later(a, b).before(b),
        Timestamp::later(a, b) == Timestamp::later(b, a),
{
}

/// Takes a file that is not there for one that need not be there.
pub fn file_optional<T>(r: Result<T, IoError>) -> (o: Result<Option<T>, IoError>)
    ensures
        match r {
            Ok(t) => o == Ok::<Option<T>, IoError>(Some(t)),
            Err(IoError::NotFound) => o == Ok::<Option<T>, IoError>(None),
            Err(e) => o == Err::<Option<T>, IoError>(e),
        },
{
    match r {
        Ok(t) => Ok(Some(t)),
        Err(IoError::NotFound) => Ok(None),
        Err(e) => Err(e),
    }
}

/// What a list of places that cannot be used is reported as.
pub fn source_error(e: IoError) -> (r: LocParseError)
    ensures
        r == (match e {
            IoError::NotFound => LocParseError::SourceMissing,
            _ => LocParseError::IoError(e),
        }),
{
    match e {
        IoError::NotFound => LocParseError::SourceMissing,
        e => LocParseError::IoError(e),
    }
}

/// How the tree of places is to be had.
#[derive(Debug, Clone, Copy, PartialEq, Eq, Structural)]
pub struct LoadPlan {
    /// When the list of places was last touched. What is written to the card from now on is to
    /// bear this time.
    pub source_time: Timestamp,
    /// Whether the tree that was kept is still good. If it is not, or cannot be read, the tree
    /// is built anew.
    pub try_cache: bool,
}

/// How the tree of places is to be had from a list of places that was touched at `source`, where
/// the strings file, if it is there, was touched at `cache`. What was kept is good exactly while
/// both were last touched at the same time.
pub open spec fn plan(cache: Option<FileTimes>, source: FileTimes) -> LoadPlan {
    LoadPlan {
        source_time: source.last(),
        try_cache: cache matches Some(times) && times.last() == source.last(),
    }
}

/// Decides how the tree of places is to be had, from the directory's entries for the strings
/// file and for the list of places.
pub fn load_tree(
    cache: Result<FileTimes, IoError>,
    source: Result<FileTimes, IoError>,
) -> (r: Result<LoadPlan, LocParseError>)
    ensures
        match (cache, source) {
            (Err(IoError::EndOfFile), _) => r == Err::<LoadPlan, _>(
                LocParseError::IoError(IoError::EndOfFile),
            ),
            (Err(IoError::Other(m)), _) => r == Err::<LoadPlan, _>(
                LocParseError::IoError(IoError::Other(m)),
            ),
            (_, Err(IoError::NotFound)) => r == Err::<LoadPlan, _>(LocParseError::SourceMissing),
            (_, Err(e)) => r == Err::<LoadPlan, _>(LocParseError::IoError(e)),
            (Err(IoError::NotFound), Ok(s)) => r == Ok::<_, LocParseError>(plan(None, s)),
            (Ok(c), Ok(s)) => r == Ok::<_, LocParseError>(plan(Some(c), s)),
        },
{
    let cache = match file_optional(cache) {
        Ok(cache) => cache,
        Err(e) => {
            return Err(LocParseError::IoError(e));
        },
    };
    let source_time = match source {
        Ok(times) => times.touched(),
        Err(e) => {
            return Err(source_error(e));
        },
    };
    let try_cache = match cache {
        Some(times) => times.touched() == source_time,
        None => false,
    };
    Ok(LoadPlan { source_time, try_cache })
}

/// Whether the tree is to be built anew: what was kept is not good any more, or could not be
/// read.
pub fn must_build(plan: &LoadPlan, kept_was_read: bool) -> (r: bool)
    ensures
        r == (!plan.try_cache || !kept_was_read),
{
    !plan.try_cache || !kept_was_read
}

/// A strings file that bears the time that loading asked for, and was not made later, is good
/// until the list of places is touched at another time.
pub proof fn law_kept_tree_is_good_until_touched(
    cache: Option<FileTimes>,
    source: FileTimes,
    made: Timestamp,
    touched: FileTimes,
)
    requires
        !plan(cache, source).source_time.before(made),
    ensures
        plan(
            Some(FileTimes { ctime: made, mtime: plan(cache, source).source_time }),
            touched,
        ).try_cache <==> touched.last() == source.last(),
{
}

/// The bytes of a file, of which a block is held at a time.
pub struct FileByteIter {
    buf: Vec<u8>,
    idx: usize,
    eof: bool,
}

/// What the model of a [`FileByteIter`] holds: the bytes of the block that are still to come,
/// and whether the file has ended.
pub struct BytesLeft {
    pub block: Seq<u8>,
    pub eof: bool,
}

/// What one attempt to read a block gave.
pub enum BlockRead {
    Data(Seq<u8>),
    End,
    Failed,
}

/// What reading a block that gave `read` is.
pub open spec fn block_read(read: Result<Vec<u8>, IoError>) -> BlockRead {
    match read {
        Ok(data) => if data@.len() == 0 {
            BlockRead::End
        } else {
            BlockRead::Data(data@)
        },
        Err(IoError::EndOfFile) => BlockRead::End,
        Err(_) => BlockRead::Failed,
    }
}

impl BytesLeft {
    /// Whether the next byte has to be read from the file.
    pub open spec fn wants_block(self) -> bool {
        !self.eof && self.block.len() == 0
    }

    /// What is left after a read.
    pub open spec fn filled(self, read: BlockRead) -> BytesLeft {
        match read {
            BlockRead::Data(data) => BytesLeft { block: data, eof: false },
            BlockRead::End => BytesLeft { eof: true, ..self },
            BlockRead::Failed => self,
        }
    }

    /// What is left after the next byte has been taken.
    pub open spec fn advanced(self) -> BytesLeft {
        if self.eof || self.block.len() == 0 {
            self
        } else {
            BytesLeft { block: self.block.skip(1), ..self }
        }
    }

    /// All bytes that come out, where `reads` is what the reads will give, up to the end of the
    /// file or to the last of the reads.
    pub open spec fn stream(self, reads: Seq<BlockRead>) -> Seq<u8> {
        if self.eof {
            Seq::empty()
        } else {
            self.block + contents(reads)
        }
    }
}

/// The bytes that reads give: the blocks one after the other, up to the end of the file.
pub open spec fn contents(reads: Seq<BlockRead>) -> Seq<u8>
    decreases reads.len(),
{
    if reads.len() == 0 {
        Seq::empty()
    } else {
        match reads[0] {
            BlockRead::Data(data) => data + contents(reads.skip(1)),
            BlockRead::End => Seq::empty(),
            BlockRead::Failed => contents(reads.skip(1)),
        }
    }
}

impl View for FileByteIter {
    type V = BytesLeft;

    closed spec fn view(&self) -> BytesLeft {
        BytesLeft { block: self.buf@.skip(self.idx as int), eof: self.eof }
    }
}

impl FileByteIter {
    #[verifier::type_invariant]
    closed spec fn inv(self) -> bool {
        self.idx <= self.buf@.len()
    }

    /// The bytes of a file from its start.
    pub fn new() -> (r: FileByteIter)
        ensures
            r@ == (BytesLeft { block: Seq::empty(), eof: false }),
    {
        let r = FileByteIter { buf: Vec::new(), idx: 0, eof: false };
        proof {
            assert(r@.block =~= Seq::empty());
        }
        r
    }

    /// Whether a block has to be read before the next byte can be had.
    pub fn wants_block(&self) -> (r: bool)
        ensures
            r == self@.wants_block(),
    {
        proof {
            use_type_invariant(self);
        }
        !self.eof && self.idx == self.buf.len()
    }

    /// Takes what reading a block gave. A failure changes nothing, so the read can be tried
    /// again.
    pub fn fill(&mut self, read: Result<Vec<u8>, IoError>) -> (r: Result<(), LocParseError>)
        requires
            old(self)@.wants_block(),
        ensures
            final(self)@ == old(self)@.filled(block_read(read)),
            match block_read(read) {
                BlockRead::Failed => r == Err::<(), _>(LocParseError::IoError(read->Err_0)),
                _ => r is Ok,
            },
    {
        proof {
            use_type_invariant(&*self);
        }
        match read {
            Ok(data) => {
                if data.len() == 0 {
                    self.eof = true;
                } else {
                    proof {
                        assert(data@.skip(0) =~= data@);
                    }
                    let eof = self.eof;
                    *self = FileByteIter { buf: data, idx: 0, eof };
                }
                Ok(())
            },
            Err(IoError::EndOfFile) => {
                self.eof = true;
                Ok(())
            },
            Err(e) => Err(LocParseError::IoError(e)),
        }
    }

    /// Takes the next byte, where there is one.
    pub fn next(&mut self) -> (r: Option<u8>)
        requires
            !old(self)@.wants_block(),
        ensures
            final(self)@ == old(self)@.advanced(),
            match r {
                Some(b) => !old(self)@.eof && b == old(self)@.block[0],
                None => old(self)@.eof,
            },
    {
        proof {
            use_type_invariant(&*self);
        }
        if self.eof {
            return None;
        }
        let b = self.buf[self.idx];
        proof {
            assert(self.idx < self.buf.len());
            assert(self.buf@.skip(self.idx as int).skip(1) =~= self.buf@.skip(self.idx + 1));
        }
        self.idx = self.idx + 1;
        Some(b)
    }
}

/// The bytes come out as they stand in the file: taking a byte takes the first of those to
/// come, and reading a block neither adds nor drops any, whether or not it fails.
pub proof fn law_bytes_in_order(left: BytesLeft, reads: Seq<BlockRead>)
    ensures
        !left.eof && left.block.len() > 0 ==> left.stream(reads)
            == seq![left.block[0]] + left.advanced().stream(reads),
        left.wants_block() && reads.len() > 0 ==> left.stream(reads) == left.filled(
            reads[0],
        ).stream(reads.skip(1)),
{
    if !left.eof && left.block.len() > 0 {
        assert(left.stream(reads) =~= seq![left.block[0]] + left.advanced().stream(reads));
    }
    if left.wants_block() && reads.len() > 0 {
        assert(left.stream(reads) =~= left.filled(reads[0]).stream(reads.skip(1)));
    }
}

/// Why as many bytes as wanted could not be read.
#[derive(Debug, PartialEq, Eq)]
pub enum ReadExactError {
    /// There are fewer.
    UnexpectedEof,
    /// The storage card failed.
    Other(IoError),
}

/// Takes one read of up to `wanted` bytes for the read of exactly as many.
pub fn read_exact(read: Result<usize, IoError>, wanted: usize) -> (r: Result<(), ReadExactError>)
    ensures
        match read {
            Ok(n) => if n == wanted {
                r is Ok
            } else {
                r == Err::<(), _>(ReadExactError::UnexpectedEof)
            },
            Err(e) => r == Err::<(), _>(ReadExactError::Other(e)),
        },
{
    match read {
        Ok(n) => if n == wanted {
            Ok(())
        } else {
            Err(ReadExactError::UnexpectedEof)
        },
        Err(e) => Err(ReadExactError::Other(e)),
    }
}

impl From<ReadExactError> for LocParseError {
    fn from(value: ReadExactError) -> (r: LocParseError) {
        match value {
            ReadExactError::UnexpectedEof => LocParseError::InvalidCacheStrLen,
            ReadExactError::Other(e) => LocParseError::IoError(e),
        }
    }
}

impl vstd::std_specs::convert::FromSpecImpl<ReadExactError> for LocParseError {
    open spec fn obeys_from_spec() -> bool {
        true
    }

    open spec fn from_spec(value: ReadExactError) -> LocParseError {
        match value {
            ReadExactError::UnexpectedEof => LocParseError::InvalidCacheStrLen,
            ReadExactError::Other(e) => LocParseError::IoError(e),
        }
    }
}

/// What is kept of a name: its UTF-8 bytes, but at most 255 of them.
pub open spec fn stored_name(name: Seq<char>) -> Seq<u8> {
    let bytes = encode_utf8(name);
    if bytes.len() <= u8::MAX {
        bytes
    } else {
        bytes.take(u8::MAX as int)
    }
}

/// What `written` becomes when `bytes` are written behind it. A file takes no more than a
/// `u32` can count; what goes beyond is dropped.
pub open spec fn appended(written: Seq<u8>, bytes: Seq<u8>) -> Seq<u8> {
    if written.len() + bytes.len() <= u32::MAX {
        written + bytes
    } else {
        written + bytes.take(u32::MAX - written.len())
    }
}

/// What the strings file holds: the names of all places, one behind the other.
pub open spec fn strings_of(features: Seq<FeatureText>) -> Seq<u8>
    decreases features.len(),
{
    if features.len() == 0 {
        Seq::empty()
    } else {
        appended(strings_of(features.drop_last()), stored_name(features.last().name))
    }
}

/// Where the name of place `k` stands: behind the names of the places before it.
pub open spec fn name_data(features: Seq<FeatureText>, k: int) -> NameData {
    NameData {
        name_offset: strings_of(features.take(k)).len() as u32,
        name_len: stored_name(features[k].name).len() as u8,
    }
}

/// Whether `node` is place `k` of `features`.
pub open spec fn is_node(node: LocNode, features: Seq<FeatureText>, k: int) -> bool {
    &&& node.lat@ == features[k].lat
    &&& node.long@ == features[k].long
    &&& node.data == name_data(features, k)
}

pub proof fn lemma_strings_bound(features: Seq<FeatureText>)
    ensures
        strings_of(features).len() <= u32::MAX,
    decreases features.len(),
{
    if features.len() > 0 {
        lemma_strings_bound(features.drop_last());
    }
}

/// What is in the strings file stays where it is when more names follow.
proof fn lemma_strings_grow(features: Seq<FeatureText>, k: int)
    requires
        0 <= k <= features.len(),
    ensures
        strings_of(features.take(k)).len() <= strings_of(features).len(),
        strings_of(features.take(k)) == strings_of(features).take(
            strings_of(features.take(k)).len() as int,
        ),
    decreases features.len(),
{
    lemma_strings_bound(features);
    if k == features.len() {
        assert(features.take(k) =~= features);
        assert(strings_of(features).take(strings_of(features).len() as int) =~= strings_of(
            features,
        ));
    } else {
        let before = features.drop_last();
        lemma_strings_bound(before);
        lemma_strings_grow(before, k);
        assert(before.take(k) =~= features.take(k));
        assert(strings_of(features.take(k)) =~= strings_of(features).take(
            strings_of(features.take(k)).len() as int,
        ));
    }
}

/// The bytes at which the data of a place points are what is kept of its name, unless the
/// strings file is full. They are as many as are read for it; and of a name of no more than 255
/// bytes they are the whole name.
pub proof fn law_names_read_back(features: Seq<FeatureText>, k: int)
    requires
        0 <= k < features.len(),
        name_data(features, k).name_offset + name_data(features, k).name_len <= u32::MAX,
    ensures
        name_data(features, k).name_offset + name_data(features, k).name_len <= strings_of(
            features,
        ).len(),
        strings_of(features).subrange(
            name_data(features, k).name_offset as int,
            name_data(features, k).name_offset + name_data(features, k).name_len,
        ) == stored_name(features[k].name),
        stored_name(features[k].name).len() == name_data(features, k).name_len,
        encode_utf8(features[k].name).len() <= 255 ==> valid_utf8(stored_name(features[k].name))
            && decode_utf8(stored_name(features[k].name)) == features[k].name,
{
    let data = name_data(features, k);
    let name = stored_name(features[k].name);
    let before = features.take(k);
    let upto = features.take(k + 1);
    lemma_strings_bound(before);
    assert(upto.drop_last() =~= before);
    lemma_strings_grow(features, k + 1);
    let end = data.name_offset + data.name_len;
    assert(strings_of(upto) == strings_of(before) + name);
    assert(strings_of(features).subrange(data.name_offset as int, end) =~= strings_of(
        upto,
    ).subrange(data.name_offset as int, end));
    assert(strings_of(upto).subrange(data.name_offset as int, end) =~= name);
    encode_utf8_valid_utf8(features[k].name);
    encode_utf8_decode_utf8(features[k].name);
}

/// The names stand one behind the other, without gaps, as long as the strings file is not full.
pub proof fn law_names_are_adjacent(features: Seq<FeatureText>, k: int)
    requires
        0 <= k,
        k + 1 < features.len(),
        name_data(features, k).name_offset + name_data(features, k).name_len <= u32::MAX,
    ensures
        name_data(features, 0).name_offset == 0,
        name_data(features, k + 1).name_offset == name_data(features, k).name_offset + name_data(
            features,
            k,
        ).name_len,
{
    lemma_strings_bound(features.take(k));
    assert(features.take(k + 1).drop_last() =~= features.take(k));
}

/// The bytes of `name` that are kept.
fn kept_name(name: &str) -> (r: Vec<u8>)
    ensures
        r@ == stored_name(name@),
{
    let bytes = name.as_bytes();
    let len: usize = if bytes.len() <= 255 {
        bytes.len()
    } else {
        255
    };
    let r = piece(bytes, 0, len);
    proof {
        assert(r@ =~= stored_name(name@));
    }
    r
}

/// A place, and the bytes of its name that are to be written behind those in the strings file.
#[derive(Debug, PartialEq, Eq)]
pub struct Entry {
    pub node: LocNode,
    pub name: Vec<u8>,
}

/// Whether `e` is the place `f`, where `offset` bytes are in the strings file before it.
pub open spec fn is_entry(e: Entry, f: FeatureText, offset: nat) -> bool {
    &&& e.node.lat@ == f.lat
    &&& e.node.long@ == f.long
    &&& e.node.data.name_offset == offset
    &&& e.node.data.name_len == stored_name(f.name).len()
    &&& e.name@ == stored_name(f.name)
}

/// How many bytes are in a file of `offset` bytes after `len` more have been written, as far as
/// it takes them.
pub open spec fn offset_after(offset: nat, len: nat) -> nat {
    if offset + len <= u32::MAX {
        offset + len
    } else {
        u32::MAX as nat
    }
}

/// What the model of a [`TreeBuilder`] holds.
pub struct Building {
    /// Where the reading of the list of places stands.
    pub at: At,
    /// How many bytes are in the strings file.
    pub offset: nat,
}

/// The places out of a list that is read byte by byte. Neither the list nor the names are held
/// in memory.
#[derive(Debug, PartialEq, Eq)]
pub struct TreeBuilder {
    reader: SourceReader,
    offset: u32,
}

impl View for TreeBuilder {
    type V = Building;

    closed spec fn view(&self) -> Building {
        Building { at: self.reader@, offset: self.offset as nat }
    }
}

impl TreeBuilder {
    /// Nothing has been read, and the strings file is empty.
    pub fn new() -> (r: TreeBuilder)
        ensures
            r@ == (Building { at: At::Start, offset: 0 }),
    {
        TreeBuilder { reader: SourceReader::new(), offset: 0 }
    }

    /// Takes the next byte, and gives the place that is whole with it. Its name is to be written
    /// to the strings file before the next byte.
    pub fn accept(&mut self, b: u8) -> (r: Result<Option<Entry>, LocParseError>)
        ensures
            match next(old(self)@.at, b) {
                Turn::On(at) => {
                    &&& r == Ok::<Option<Entry>, LocParseError>(None)
                    &&& final(self)@ == (Building { at, offset: old(self)@.offset })
                },
                Turn::Found(f, at) => {
                    &&& r matches Ok(Some(e)) && is_entry(e, f, old(self)@.offset)
                    &&& final(self)@ == (Building {
                        at,
                        offset: offset_after(old(self)@.offset, stored_name(f.name).len()),
                    })
                },
                Turn::Fail(f) => {
                    &&& r matches Err(e) && reports(e, f)
                    &&& final(self)@ == (Building { at: At::Start, offset: old(self)@.offset })
                },
            },
    {
        match self.reader.accept(b) {
            Ok(Some(place)) => {
                let name = kept_name(place.name.as_str());
                let data = NameData { name_offset: self.offset, name_len: name.len() as u8 };
                self.offset = self.offset.saturating_add(name.len() as u32);
                let node = LocNode { lat: place.lat, long: place.long, data };
                Ok(Some(Entry { node, name }))
            },
            Ok(None) => Ok(None),
            Err(e) => Err(e),
        }
    }

    /// Takes the end of the list.
    pub fn finish(self) -> (r: Result<(), LocParseError>)
        ensures
            match finished(self@.at) {
                Ok(_) => r is Ok,
                Err(f) => r matches Err(e) && reports(e, f),
            },
    {
        self.reader.finish()
    }

    /// Takes a failure to read the list, which is never taken for its end.
    pub fn fail(self) -> (e: LocParseError)
        ensures
            reports(e, broken(self@.at)),
    {
        self.reader.fail()
    }
}

/// What is in a file of `written` after `bytes` have been written behind it.
fn append(written: &mut Vec<u8>, bytes: &[u8])
    requires
        old(written)@.len() <= u32::MAX,
    ensures
        final(written)@ == appended(old(written)@, bytes@),
{
    let room: usize = u32::MAX as usize - written.len();
    let fits: usize = if bytes.len() <= room {
        bytes.len()
    } else {
        room
    };
    let ghost before = written@;
    written.extend_from_slice(vstd::slice::slice_subrange(bytes, 0, fits));
    proof {
        assert(written@ =~= appended(before, bytes@));
    }
}

/// Reads the list of places in `source`, and lays out their names one behind the other. The
/// places before the first failure, and whether there was none.
pub fn build_tree(source: &[u8]) -> (r: (LocTree, Result<(), LocParseError>))
    ensures
        r.0.strings@ == strings_of(document(source@).features),
        r.0.nodes@.len() == document(source@).features.len(),
        forall|k: int|
            0 <= k < r.0.nodes@.len() ==> is_node(
                #[trigger] r.0.nodes@[k],
                document(source@).features,
                k,
            ),
        match document(source@).end {
            Ok(_) => r.1 is Ok,
            Err(f) => r.1 matches Err(e) && reports(e, f),
        },
{
    let mut builder = TreeBuilder::new();
    let mut nodes: Vec<LocNode> = Vec::new();
    let mut strings: Vec<u8> = Vec::new();
    let ghost mut places: Seq<FeatureText> = Seq::empty();
    let mut i: usize = 0;
    proof {
        assert(source@.skip(0) =~= source@);
        law_reading_follows_the_grammar(source@);
    }
    while i < source.len()
        invariant
            i <= source.len(),
            document(source@) == run(places, builder@.at, source@.skip(i as int)),
            strings@ == strings_of(places),
            strings@.len() == builder@.offset,
            nodes@.len() == places.len(),
            forall|k: int| 0 <= k < places.len() ==> is_node(#[trigger] nodes@[k], places, k),
        decreases source.len() - i,
    {
        proof {
            assert(source@.skip(i as int).skip(1) =~= source@.skip(i + 1));
            lemma_strings_bound(places);
        }
        let ghost at = builder@.at;
        match builder.accept(source[i]) {
            Ok(Some(entry)) => {
                let ghost before = places;
                let ghost f = next(at, source@[i as int])->Found_0;
                proof {
                    places = before.push(f);
                    assert(places.drop_last() =~= before);
                    assert forall|k: int| 0 <= k <= before.len() implies #[trigger] places.take(k)
                        == before.take(k) by {
                        assert(places.take(k) =~= before.take(k));
                    }
                    assert(before.take(before.len() as int) =~= before);
                }
                append(&mut strings, entry.name.as_slice());
                nodes.push(entry.node);
                proof {
                    assert forall|k: int| 0 <= k < places.len() implies is_node(
                        #[trigger] nodes@[k],
                        places,
                        k,
                    ) by {
                        assert(places.take(k) == before.take(k));
                    }
                }
            },
            Ok(None) => {},
            Err(e) => {
                return (LocTree { nodes, strings }, Err(e));
            },
        }
        i = i + 1;
    }
    (LocTree { nodes, strings }, builder.finish())
}

/// The fields of a time read as one number, from the year down to the seconds.
pub open spec fn moment(t: Timestamp) -> int {
    ((((t.year_since_1970 * 256 + t.zero_indexed_month) * 256 + t.zero_indexed_day) * 256
        + t.hours) * 256 + t.minutes) * 256 + t.seconds
}

/// Times are ordered as in the calendar: the year counts most and the seconds least. The later of
/// two is the one with the greater number.
pub proof fn law_times_are_ordered_as_in_the_calendar(a: Timestamp, b: Timestamp)
    ensures
        a.before(b) <==> moment(a) < moment(b),
        moment(a) <= moment(Timestamp::later(a, b)),
        moment(b) <= moment(Timestamp::later(a, b)),
        moment(a) == moment(b) <==> a == b,
        (FileTimes { ctime: a, mtime: b }).last() == a || (FileTimes { ctime: a, mtime: b }).last()
            == b,
        moment((FileTimes { ctime: a, mtime: b }).last()) >= moment(a),
        moment((FileTimes { ctime: a, mtime: b }).last()) >= moment(b),
{
}

/// A list of places that was edited after the strings file was last touched is read anew, and
/// what is written from then on bears the time of the edit.
pub proof fn law_edited_list_is_read_anew(cache: FileTimes, source: FileTimes)
    ensures
        moment(source.mtime) > moment(cache.ctime) && moment(source.mtime) > moment(cache.mtime)
            ==> !plan(Some(cache), source).try_cache,
        moment(source.mtime) >= moment(source.ctime) ==> plan(Some(cache), source).source_time
            == source.mtime,
        !plan(None, source).try_cache,
        plan(None, source).source_time == plan(Some(cache), source).source_time,
{
    law_times_are_ordered_as_in_the_calendar(source.ctime, source.mtime);
    law_times_are_ordered_as_in_the_calendar(cache.ctime, cache.mtime);
}

/// What is kept of a name are its first bytes: all of them, or 255 of a longer one.
pub proof fn law_kept_name_is_a_start(name: Seq<char>)
    ensures
        stored_name(name).len() <= 255,
        stored_name(name).len() <= encode_utf8(name).len(),
        stored_name(name).len() < encode_utf8(name).len() ==> stored_name(name).len() == 255,
        forall|i: int|
            0 <= i < stored_name(name).len() ==> #[trigger] stored_name(name)[i] == encode_utf8(
                name,
            )[i],
{
}

/// A block is what was read, and the end of the file is where nothing more comes.
pub proof fn law_block_is_what_was_read(data: Vec<u8>, e: IoError)
    ensures
        data@.len() > 0 ==> block_read(Ok(data)) == BlockRead::Data(data@),
        data@.len() == 0 ==> block_read(Ok(data)) == BlockRead::End,
        e is EndOfFile ==> block_read(Err(e)) == BlockRead::End,
        !(e is EndOfFile) ==> block_read(Err(e)) == BlockRead::Failed,
{
}

/// The kept tree is tried exactly if the file and its list were last touched at the same time.
pub proof fn law_same_time_means_same_list(cache: FileTimes, source: FileTimes)
    ensures
        ({
            let c = if moment(cache.ctime) > moment(cache.mtime) {
                moment(cache.ctime)
            } else {
                moment(cache.mtime)
            };
            let s = if moment(source.ctime) > moment(source.mtime) {
                moment(source.ctime)
            } else {
                moment(source.mtime)
            };
            &&& plan(Some(cache), source).try_cache <==> c == s
            &&& moment(plan(Some(cache), source).source_time) == s
        }),
{
    law_times_are_ordered_as_in_the_calendar(cache.ctime, cache.mtime);
    law_times_are_ordered_as_in_the_calendar(source.ctime, source.mtime);
    law_times_are_ordered_as_in_the_calendar(cache.last(), source.last());
}

/// A place that comes out of the list is what the tree has at its number, and the bytes of its
/// name go where that says. After it the strings file is as long as it is counted.
pub proof fn law_places_become_nodes(features: Seq<FeatureText>, k: int, e: Entry)
    requires
        0 <= k < features.len(),
        is_entry(e, features[k], strings_of(features.take(k)).len()),
    ensures
        is_node(e.node, features, k),
        strings_of(features.take(k + 1)) == appended(strings_of(features.take(k)), e.name@),
        offset_after(strings_of(features.take(k)).len(), e.name@.len()) == strings_of(
            features.take(k + 1),
        ).len(),
{
    lemma_strings_bound(features.take(k));
    assert(features.take(k + 1).drop_last() =~= features.take(k));
}

} // verus!
