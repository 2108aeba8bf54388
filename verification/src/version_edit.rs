//! Version edits: the records of the manifest. An edit is a sequence of
//! tagged fields, each of which sets a number of the database's state or
//! adds to one of its lists.

use vstd::prelude::*;
use vstd::string::StringSliceAdditionalSpecFns;
use crate::coding::{
    get_length_prefixed_slice, get_varint32, get_varint64, length_prefixed_bytes,
    length_prefixed_parse, put_length_prefixed_slice, put_varint32, put_varint64, varint32_parse,
    varint64_parse, varint_bytes, window,
};
use crate::dbformat::{InternalKey, SequenceNumber};
use crate::error::Error;
use crate::slice::Slice;

verus! {

/// The number of levels of tables.
pub const NUM_LEVELS: u32 = 7;

/// The tag of the comparator's name.
pub const TAG_COMPARATOR: u32 = 1;

/// The tag of the log number.
pub const TAG_LOG_NUMBER: u32 = 2;

/// The tag of the next file number.
pub const TAG_NEXT_FILE_NUMBER: u32 = 3;

/// The tag of the last sequence number.
pub const TAG_LAST_SEQUENCE: u32 = 4;

/// The tag of a compaction pointer.
pub const TAG_COMPACT_POINTER: u32 = 5;

/// The tag of a deleted file.
pub const TAG_DELETED_FILE: u32 = 6;

/// The tag of a new file.
pub const TAG_NEW_FILE: u32 = 7;

/// The tag of the previous log number; 8 was once used for something
/// else.
pub const TAG_PREV_LOG_NUMBER: u32 = 9;

/// One field of an edit.
pub enum Field {
    Comparator(Seq<u8>),
    LogNumber(u64),
    PrevLogNumber(u64),
    NextFileNumber(u64),
    LastSequence(u64),
    CompactPointer(u32, Seq<u8>),
    DeletedFile(u32, u64),
    NewFile(NewFile),
}

/// A table file that an edit adds.
pub struct NewFile {
    pub level: u32,
    pub number: u64,
    pub file_size: u64,
    pub smallest: Seq<u8>,
    pub largest: Seq<u8>,
}

/// What an edit says.
pub struct Edit {
    pub comparator: Option<Seq<u8>>,
    pub log_number: Option<u64>,
    pub prev_log_number: Option<u64>,
    pub next_file_number: Option<u64>,
    pub last_sequence: Option<u64>,
    pub compact_pointers: Seq<(u32, Seq<u8>)>,
    pub deleted_files: Seq<(u32, u64)>,
    pub new_files: Seq<NewFile>,
}

impl Edit {
    /// The edit that says nothing.
    pub open spec fn empty() -> Edit {
        Edit {
            comparator: None,
            log_number: None,
            prev_log_number: None,
            next_file_number: None,
            last_sequence: None,
            compact_pointers: Seq::empty(),
            deleted_files: Seq::empty(),
            new_files: Seq::empty(),
        }
    }

    /// The edit with one field more: a number replaces what the edit said
    /// of it, an item goes to the end of its list. An empty comparator
    /// name stands for no name.
    pub open spec fn with(self, field: Field) -> Edit {
        match field {
            Field::Comparator(name) => Edit {
                comparator: if name.len() > 0 {
                    Some(name)
                } else {
                    None
                },
                ..self
            },
            Field::LogNumber(n) => Edit { log_number: Some(n), ..self },
            Field::PrevLogNumber(n) => Edit { prev_log_number: Some(n), ..self },
            Field::NextFileNumber(n) => Edit { next_file_number: Some(n), ..self },
            Field::LastSequence(n) => Edit { last_sequence: Some(n), ..self },
            Field::CompactPointer(level, key) => Edit {
                compact_pointers: self.compact_pointers.push((level, key)),
                ..self
            },
            Field::DeletedFile(level, number) => Edit {
                deleted_files: self.deleted_files.push((level, number)),
                ..self
            },
            Field::NewFile(file) => Edit { new_files: self.new_files.push(file), ..self },
        }
    }
}

/// Reads a level from the front of `s`: a varint32 below the number of
/// levels.
pub open spec fn level_parse(s: Seq<u8>) -> Option<(u32, nat)> {
    match varint32_parse(s) {
        Some((level, n)) => if level < NUM_LEVELS {
            Some((level, n))
        } else {
            None
        },
        None => None,
    }
}

/// Reads what follows the tag of a new file: level, number, size, and the
/// smallest and the largest key.
pub open spec fn new_file_parse(s: Seq<u8>) -> Option<(NewFile, nat)> {
    match level_parse(s) {
        Some((level, a)) => match varint64_parse(s.skip(a as int)) {
            Some((number, b)) => match varint64_parse(s.skip((a + b) as int)) {
                Some((file_size, c)) => match length_prefixed_parse(s.skip((a + b + c) as int)) {
                    Some((smallest, d)) => match length_prefixed_parse(s.skip((a + b + c + d) as int)) {
                        Some((largest, e)) => Some(
                            (
                                NewFile { level, number, file_size, smallest, largest },
                                a + b + c + d + e,
                            ),
                        ),
                        None => None,
                    },
                    None => None,
                },
                None => None,
            },
            None => None,
        },
        None => None,
    }
}

/// Reads what follows the tag `tag` of a field.
pub open spec fn field_body_parse(tag: u32, s: Seq<u8>) -> Option<(Field, nat)> {
    if tag == TAG_COMPARATOR {
        match length_prefixed_parse(s) {
            Some((name, n)) => Some((Field::Comparator(name), n)),
            None => None,
        }
    } else if tag == TAG_LOG_NUMBER {
        match varint64_parse(s) {
            Some((v, n)) => Some((Field::LogNumber(v), n)),
            None => None,
        }
    } else if tag == TAG_PREV_LOG_NUMBER {
        match varint64_parse(s) {
            Some((v, n)) => Some((Field::PrevLogNumber(v), n)),
            None => None,
        }
    } else if tag == TAG_NEXT_FILE_NUMBER {
        match varint64_parse(s) {
            Some((v, n)) => Some((Field::NextFileNumber(v), n)),
            None => None,
        }
    } else if tag == TAG_LAST_SEQUENCE {
        match varint64_parse(s) {
            Some((v, n)) => Some((Field::LastSequence(v), n)),
            None => None,
        }
    } else if tag == TAG_COMPACT_POINTER {
        match level_parse(s) {
            Some((level, a)) => match length_prefixed_parse(s.skip(a as int)) {
                Some((key, b)) => Some((Field::CompactPointer(level, key), a + b)),
                None => None,
            },
            None => None,
        }
    } else if tag == TAG_DELETED_FILE {
        match level_parse(s) {
            Some((level, a)) => match varint64_parse(s.skip(a as int)) {
                Some((number, b)) => Some((Field::DeletedFile(level, number), a + b)),
                None => None,
            },
            None => None,
        }
    } else if tag == TAG_NEW_FILE {
        match new_file_parse(s) {
            Some((file, n)) => Some((Field::NewFile(file), n)),
            None => None,
        }
    } else {
        None
    }
}

/// Reads one field from the front of `s`: its tag, a varint32, and what
/// the tag calls for.
pub open spec fn field_parse(s: Seq<u8>) -> Option<(Field, nat)> {
    match varint32_parse(s) {
        Some((tag, n)) => match field_body_parse(tag, s.skip(n as int)) {
            Some((field, m)) => Some((field, n + m)),
            None => None,
        },
        None => None,
    }
}

/// Reads fields from `s` until it ends and adds them to `edit`; `None`
/// where a tag is unknown or a field is malformed.
pub open spec fn fields_parse(s: Seq<u8>, edit: Edit) -> Option<Edit>
    decreases s.len(),
{
    if s.len() == 0 {
        Some(edit)
    } else {
        match field_parse(s) {
            Some((field, n)) => if 0 < n <= s.len() {
                fields_parse(s.skip(n as int), edit.with(field))
            } else {
                None
            },
            None => None,
        }
    }
}

/// The edit that the bytes `s` stand for.
pub open spec fn edit_parse(s: Seq<u8>) -> Option<Edit> {
    fields_parse(s, Edit::empty())
}

/// The bytes of a field: its tag and its body.
pub open spec fn field_bytes(field: Field) -> Seq<u8> {
    match field {
        Field::Comparator(name) => varint_bytes(TAG_COMPARATOR as nat) + length_prefixed_bytes(
            name,
        ),
        Field::LogNumber(n) => varint_bytes(TAG_LOG_NUMBER as nat) + varint_bytes(n as nat),
        Field::PrevLogNumber(n) => varint_bytes(TAG_PREV_LOG_NUMBER as nat) + varint_bytes(
            n as nat,
        ),
        Field::NextFileNumber(n) => varint_bytes(TAG_NEXT_FILE_NUMBER as nat) + varint_bytes(
            n as nat,
        ),
        Field::LastSequence(n) => varint_bytes(TAG_LAST_SEQUENCE as nat) + varint_bytes(n as nat),
        Field::CompactPointer(level, key) => varint_bytes(TAG_COMPACT_POINTER as nat)
            + varint_bytes(level as nat) + length_prefixed_bytes(key),
        Field::DeletedFile(level, number) => varint_bytes(TAG_DELETED_FILE as nat) + varint_bytes(
            level as nat,
        ) + varint_bytes(number as nat),
        Field::NewFile(file) => varint_bytes(TAG_NEW_FILE as nat) + varint_bytes(
            file.level as nat,
        ) + varint_bytes(file.number as nat) + varint_bytes(file.file_size as nat)
            + length_prefixed_bytes(file.smallest) + length_prefixed_bytes(file.largest),
    }
}

/// The field, where there is one, as a sequence of fields.
pub open spec fn optional(field: Option<Field>) -> Seq<Field> {
    match field {
        Some(f) => seq![f],
        None => Seq::empty(),
    }
}

/// The bytes of the field, where there is one.
pub open spec fn optional_bytes(field: Option<Field>) -> Seq<u8> {
    match field {
        Some(f) => field_bytes(f),
        None => Seq::empty(),
    }
}

/// The fields that set the numbers of an edit: the comparator, the log
/// number, the previous log number, the next file number and the last
/// sequence number, as far as the edit sets them.
pub open spec fn number_fields(edit: Edit) -> Seq<Field> {
    optional(
        match edit.comparator {
            Some(name) => Some(Field::Comparator(name)),
            None => None,
        },
    ) + optional(
        match edit.log_number {
            Some(n) => Some(Field::LogNumber(n)),
            None => None,
        },
    ) + optional(
        match edit.prev_log_number {
            Some(n) => Some(Field::PrevLogNumber(n)),
            None => None,
        },
    ) + optional(
        match edit.next_file_number {
            Some(n) => Some(Field::NextFileNumber(n)),
            None => None,
        },
    ) + optional(
        match edit.last_sequence {
            Some(n) => Some(Field::LastSequence(n)),
            None => None,
        },
    )
}

/// The fields of the compaction pointers `list`.
pub open spec fn pointer_fields(list: Seq<(u32, Seq<u8>)>) -> Seq<Field> {
    Seq::new(list.len(), |i: int| Field::CompactPointer(list[i].0, list[i].1))
}

/// The fields of the deleted files `list`.
pub open spec fn deleted_fields(list: Seq<(u32, u64)>) -> Seq<Field> {
    Seq::new(list.len(), |i: int| Field::DeletedFile(list[i].0, list[i].1))
}

/// The fields of the new files `list`.
pub open spec fn new_file_fields(list: Seq<NewFile>) -> Seq<Field> {
    Seq::new(list.len(), |i: int| Field::NewFile(list[i]))
}

/// The fields of an edit, in the order in which they are written: the
/// numbers, then the compaction pointers, the deleted files and the new
/// files.
pub open spec fn fields_of(edit: Edit) -> Seq<Field> {
    number_fields(edit) + pointer_fields(edit.compact_pointers) + deleted_fields(
        edit.deleted_files,
    ) + new_file_fields(edit.new_files)
}

/// Whether the strings of an edit fit their length prefixes.
pub open spec fn encodable(edit: Edit) -> bool {
    &&& match edit.comparator {
        Some(name) => name.len() <= u32::MAX,
        None => true,
    }
    &&& forall|i: int|
        0 <= i < edit.compact_pointers.len() ==> (#[trigger] edit.compact_pointers[i]).1.len()
            <= u32::MAX
    &&& forall|i: int|
        0 <= i < edit.new_files.len() ==> (#[trigger] edit.new_files[i]).smallest.len() <= u32::MAX
            && edit.new_files[i].largest.len() <= u32::MAX
}

/// The bytes of `fields`, one after another.
pub open spec fn fields_bytes(fields: Seq<Field>) -> Seq<u8>
    decreases fields.len(),
{
    if fields.len() == 0 {
        Seq::empty()
    } else {
        fields_bytes(fields.drop_last()) + field_bytes(fields.last())
    }
}

/// The bytes that stand for an edit.
pub open spec fn edit_bytes(edit: Edit) -> Seq<u8> {
    fields_bytes(fields_of(edit))
}


/// The bytes of fields with one field more are the bytes of the fields
/// and then the bytes of that field.
pub proof fn lemma_fields_push(start: Seq<u8>, fields: Seq<Field>, field: Field)
    ensures
        fields_bytes(fields.push(field)) == fields_bytes(fields) + field_bytes(field),
        start + fields_bytes(fields) + field_bytes(field) == start + fields_bytes(
            fields.push(field),
        ),
{
    assert(fields.push(field).drop_last() =~= fields);
    assert(start + fields_bytes(fields) + field_bytes(field) =~= start + (fields_bytes(fields)
        + field_bytes(field)));
}

/// The bytes of fields that follow other fields follow the bytes of
/// those.
pub proof fn lemma_fields_concat(a: Seq<Field>, b: Seq<Field>)
    ensures
        fields_bytes(a + b) == fields_bytes(a) + fields_bytes(b),
    decreases b.len(),
{
    if b.len() == 0 {
        assert(a + b =~= a);
        assert(fields_bytes(a) + fields_bytes(b) =~= fields_bytes(a));
    } else {
        lemma_fields_concat(a, b.drop_last());
        assert((a + b).drop_last() =~= a + b.drop_last());
        assert((a + b).last() == b.last());
        assert(fields_bytes(a) + fields_bytes(b.drop_last()) + field_bytes(b.last())
            =~= fields_bytes(a) + (fields_bytes(b.drop_last()) + field_bytes(b.last())));
    }
}

/// The bytes of an optional field.
pub proof fn lemma_optional(field: Option<Field>)
    ensures
        fields_bytes(optional(field)) == optional_bytes(field),
{
    match field {
        Some(f) => {
            assert(seq![f].drop_last() =~= Seq::<Field>::empty());
            assert(fields_bytes(Seq::<Field>::empty()) + field_bytes(f) =~= field_bytes(f));
        },
        None => {},
    }
}

/// The bytes of the fields that set numbers are the bytes of each, one
/// after another.
pub proof fn lemma_number_fields(edit: Edit)
    ensures
        fields_bytes(number_fields(edit)) == optional_bytes(
            match edit.comparator {
                Some(name) => Some(Field::Comparator(name)),
                None => None,
            },
        ) + optional_bytes(
            match edit.log_number {
                Some(n) => Some(Field::LogNumber(n)),
                None => None,
            },
        ) + optional_bytes(
            match edit.prev_log_number {
                Some(n) => Some(Field::PrevLogNumber(n)),
                None => None,
            },
        ) + optional_bytes(
            match edit.next_file_number {
                Some(n) => Some(Field::NextFileNumber(n)),
                None => None,
            },
        ) + optional_bytes(
            match edit.last_sequence {
                Some(n) => Some(Field::LastSequence(n)),
                None => None,
            },
        ),
{
    let a = match edit.comparator {
        Some(name) => Some(Field::Comparator(name)),
        None => None,
    };
    let b = match edit.log_number {
        Some(n) => Some(Field::LogNumber(n)),
        None => None,
    };
    let c = match edit.prev_log_number {
        Some(n) => Some(Field::PrevLogNumber(n)),
        None => None,
    };
    let d = match edit.next_file_number {
        Some(n) => Some(Field::NextFileNumber(n)),
        None => None,
    };
    let e = match edit.last_sequence {
        Some(n) => Some(Field::LastSequence(n)),
        None => None,
    };
    lemma_optional(a);
    lemma_optional(b);
    lemma_optional(c);
    lemma_optional(d);
    lemma_optional(e);
    lemma_fields_concat(optional(a), optional(b));
    lemma_fields_concat(optional(a) + optional(b), optional(c));
    lemma_fields_concat(optional(a) + optional(b) + optional(c), optional(d));
    lemma_fields_concat(optional(a) + optional(b) + optional(c) + optional(d), optional(e));
}

/// Five pieces that are appended one after another are appended as one.
pub proof fn lemma_concat5(
    start: Seq<u8>,
    a: Seq<u8>,
    b: Seq<u8>,
    c: Seq<u8>,
    d: Seq<u8>,
    e: Seq<u8>,
)
    ensures
        start + a + b + c + d + e == start + (a + b + c + d + e),
{
    assert(start + a + b + c + d + e =~= start + (a + b + c + d + e));
}

/// What is known of a table file.
pub struct FileMetaData {
    pub refs: i32,
    /// Seeks allowed until compaction.
    pub allowed_seeks: i32,
    pub number: u64,
    /// File size in bytes.
    pub file_size: u64,
    /// Smallest internal key served by the table.
    pub smallest: InternalKey,
    /// Largest internal key served by the table.
    pub largest: InternalKey,
}

impl FileMetaData {
    /// A file of which nothing is known yet.
    pub fn new() -> (f: Self)
        ensures
            f.refs == 0,
            f.allowed_seeks == 0,
            f.number == 0,
            f.file_size == 0,
            f.smallest@ == Seq::<u8>::empty(),
            f.largest@ == Seq::<u8>::empty(),
    {
        FileMetaData {
            refs: 0,
            allowed_seeks: 0,
            number: 0,
            file_size: 0,
            smallest: InternalKey::new(),
            largest: InternalKey::new(),
        }
    }

    /// The file as an edit names it, on level `level`.
    pub open spec fn on_level(&self, level: u32) -> NewFile {
        NewFile {
            level,
            number: self.number,
            file_size: self.file_size,
            smallest: self.smallest@,
            largest: self.largest@,
        }
    }
}

/// One edit of the database's state.
pub struct VersionEdit {
    comparator: Vec<u8>,
    log_number: u64,
    prev_log_number: u64,
    next_file_number: u64,
    last_sequence: SequenceNumber,
    has_comparator: bool,
    has_log_number: bool,
    has_prev_log_number: bool,
    has_next_file_number: bool,
    has_last_sequence: bool,
    compact_pointers: Vec<(u32, InternalKey)>,
    deleted_files: Vec<(u32, u64)>,
    new_files: Vec<(u32, FileMetaData)>,
}

/// The compaction pointers `v` as an edit names them.
pub open spec fn pointers_view(v: Seq<(u32, InternalKey)>) -> Seq<(u32, Seq<u8>)> {
    Seq::new(v.len(), |i: int| (v[i].0, v[i].1@))
}

/// The new files `v` as an edit names them.
pub open spec fn files_view(v: Seq<(u32, FileMetaData)>) -> Seq<NewFile> {
    Seq::new(v.len(), |i: int| v[i].1.on_level(v[i].0))
}

impl View for VersionEdit {
    type V = Edit;

    closed spec fn view(&self) -> Edit {
        Edit {
            comparator: if self.has_comparator {
                Some(self.comparator@)
            } else {
                None
            },
            log_number: if self.has_log_number {
                Some(self.log_number)
            } else {
                None
            },
            prev_log_number: if self.has_prev_log_number {
                Some(self.prev_log_number)
            } else {
                None
            },
            next_file_number: if self.has_next_file_number {
                Some(self.next_file_number)
            } else {
                None
            },
            last_sequence: if self.has_last_sequence {
                Some(self.last_sequence)
            } else {
                None
            },
            compact_pointers: pointers_view(self.compact_pointers@),
            deleted_files: self.deleted_files@,
            new_files: files_view(self.new_files@),
        }
    }
}

/// Reads a varint64 from the front of `input`.
fn read_varint64(input: &[u8]) -> (r: Option<(u64, usize)>)
    ensures
        match varint64_parse(input@) {
            Some((v, n)) => r == Some((v, n as usize)) && 0 < n <= input@.len(),
            None => r is None,
        },
{
    proof {
        assert(window(input@, 0, input@.len() as int) =~= input@);
        crate::coding::lemma_varint_parse_bounds(input@, 10);
    }
    match get_varint64(input, 0, input.len()) {
        Ok((v, n)) => Some((v, n)),
        Err(_) => None,
    }
}

/// Reads a varint32 from the front of `input`.
fn read_varint32(input: &[u8]) -> (r: Option<(u32, usize)>)
    ensures
        match varint32_parse(input@) {
            Some((v, n)) => r == Some((v, n as usize)) && 0 < n <= input@.len(),
            None => r is None,
        },
{
    proof {
        assert(window(input@, 0, input@.len() as int) =~= input@);
        crate::coding::lemma_varint_parse_bounds(input@, 5);
    }
    match get_varint32(input, 0, input.len()) {
        Ok((v, n)) => Some((v, n)),
        Err(_) => None,
    }
}

/// Reads a length-prefixed string from the front of `input`.
fn read_slice<'a>(input: &'a [u8]) -> (r: Option<(Slice<'a>, usize)>)
    ensures
        match length_prefixed_parse(input@) {
            Some((s, n)) => r matches Some((found, m)) && found@ == s && m == n && 0 < n
                <= input@.len(),
            None => r is None,
        },
{
    proof {
        crate::coding::lemma_length_prefixed_bounds(input@);
    }
    match get_length_prefixed_slice(input) {
        Ok((s, n)) => Some((s, n)),
        Err(_) => None,
    }
}

/// Reads a level from the front of `input`: a varint32 below the number
/// of levels.
pub fn get_level(input: &[u8]) -> (r: Option<(u32, usize)>)
    ensures
        match level_parse(input@) {
            Some((level, n)) => r == Some((level, n as usize)) && 0 < n <= input@.len(),
            None => r is None,
        },
{
    match read_varint32(input) {
        Some((val, len)) => if val < NUM_LEVELS {
            Some((val, len))
        } else {
            None
        },
        None => None,
    }
}

/// Reads a length-prefixed internal key from the front of `input`.
pub fn get_internal_key(input: &[u8]) -> (r: Option<(InternalKey, usize)>)
    ensures
        match length_prefixed_parse(input@) {
            Some((s, n)) => r matches Some((key, m)) && key@ == s && m == n && 0 < n
                <= input@.len(),
            None => r is None,
        },
{
    match read_slice(input) {
        Some((slice, len)) => {
            let mut internal_key = InternalKey::new();
            internal_key.decode_from(slice.data());
            Some((internal_key, len))
        },
        None => None,
    }
}

/// The rest of `input` from `offset` on.
fn tail(input: &[u8], offset: usize) -> (r: &[u8])
    requires
        offset <= input@.len(),
    ensures
        r@ == input@.skip(offset as int),
{
    let r = vstd::slice::slice_subrange(input, offset, input.len());
    assert(r@ =~= input@.skip(offset as int));
    r
}

impl VersionEdit {
    /// The edit that says nothing.
    pub fn empty() -> (e: Self)
        ensures
            e@ == Edit::empty(),
    {
        let e = VersionEdit {
            comparator: Vec::new(),
            log_number: 0,
            prev_log_number: 0,
            next_file_number: 0,
            last_sequence: 0,
            has_comparator: false,
            has_log_number: false,
            has_prev_log_number: false,
            has_next_file_number: false,
            has_last_sequence: false,
            compact_pointers: Vec::new(),
            deleted_files: Vec::new(),
            new_files: Vec::new(),
        };
        proof {
            assert(pointers_view(e.compact_pointers@) =~= Seq::empty());
            assert(files_view(e.new_files@) =~= Seq::empty());
        }
        e
    }

    /// The edit that names the comparator, where the name is not empty,
    /// and sets the log number, the next file number and the last
    /// sequence number.
    pub fn new(
        user_comparator: &str,
        log_number: u64,
        next_file_number: u64,
        last_sequence: SequenceNumber,
    ) -> (e: Self)
        ensures
            e@ == (Edit {
                comparator: if user_comparator.spec_bytes().len() > 0 {
                    Some(user_comparator.spec_bytes())
                } else {
                    None
                },
                log_number: Some(log_number),
                next_file_number: Some(next_file_number),
                last_sequence: Some(last_sequence),
                ..Edit::empty()
            }),
    {
        let name = vstd::slice::slice_to_vec(user_comparator.as_bytes());
        let has_comparator = name.len() > 0;
        let e = VersionEdit {
            comparator: name,
            has_comparator,
            log_number,
            has_log_number: true,
            next_file_number,
            has_next_file_number: true,
            last_sequence,
            has_last_sequence: true,
            prev_log_number: 0,
            has_prev_log_number: false,
            compact_pointers: Vec::new(),
            deleted_files: Vec::new(),
            new_files: Vec::new(),
        };
        proof {
            assert(pointers_view(e.compact_pointers@) =~= Seq::empty());
            assert(files_view(e.new_files@) =~= Seq::empty());
        }
        e
    }

    /// The name of the comparator, where the edit names one.
    pub fn comparator(&self) -> (r: Option<&Vec<u8>>)
        ensures
            match r {
                Some(name) => self@.comparator == Some(name@),
                None => self@.comparator is None,
            },
    {
        if self.has_comparator {
            Some(&self.comparator)
        } else {
            None
        }
    }

    /// The log number, where the edit sets it.
    pub fn log_number(&self) -> (r: Option<u64>)
        ensures
            r == self@.log_number,
    {
        if self.has_log_number {
            Some(self.log_number)
        } else {
            None
        }
    }

    /// The previous log number, where the edit sets it.
    pub fn prev_log_number(&self) -> (r: Option<u64>)
        ensures
            r == self@.prev_log_number,
    {
        if self.has_prev_log_number {
            Some(self.prev_log_number)
        } else {
            None
        }
    }

    /// The next file number, where the edit sets it.
    pub fn next_file_number(&self) -> (r: Option<u64>)
        ensures
            r == self@.next_file_number,
    {
        if self.has_next_file_number {
            Some(self.next_file_number)
        } else {
            None
        }
    }

    /// The last sequence number, where the edit sets it.
    pub fn last_sequence(&self) -> (r: Option<SequenceNumber>)
        ensures
            r == self@.last_sequence,
    {
        if self.has_last_sequence {
            Some(self.last_sequence)
        } else {
            None
        }
    }

    /// Sets the previous log number.
    pub fn set_prev_log_number(&mut self, number: u64)
        ensures
            final(self)@ == old(self)@.with(Field::PrevLogNumber(number)),
    {
        self.has_prev_log_number = true;
        self.prev_log_number = number;
    }

    /// Adds a compaction pointer: the key at which the next compaction of
    /// `level` starts.
    pub fn set_compact_pointer(&mut self, level: u32, key: InternalKey)
        ensures
            final(self)@ == old(self)@.with(Field::CompactPointer(level, key@)),
    {
        self.compact_pointers.push((level, key));
        assert(pointers_view(self.compact_pointers@) =~= pointers_view(
            old(self).compact_pointers@,
        ).push((level, key@)));
    }

    /// Adds the deletion of the file `number` from `level`.
    pub fn delete_file(&mut self, level: u32, number: u64)
        ensures
            final(self)@ == old(self)@.with(Field::DeletedFile(level, number)),
    {
        self.deleted_files.push((level, number));
    }

    /// Adds the file `file` to `level`.
    pub fn add_file(&mut self, level: u32, file: FileMetaData)
        ensures
            final(self)@ == old(self)@.with(Field::NewFile(file.on_level(level))),
    {
        self.new_files.push((level, file));
        assert(files_view(self.new_files@) =~= files_view(old(self).new_files@).push(
            file.on_level(level),
        ));
    }

    /// Reads what follows the tag of a new file: the level, and the file
    /// with its number, its size and its smallest and largest key; and
    /// the count of bytes read.
    #[verifier::rlimit(30)]
    pub fn parse_new_file(input: &[u8]) -> (r: Option<(u32, FileMetaData, usize)>)
        ensures
            match new_file_parse(input@) {
                Some((file, n)) => r matches Some((level, f, m)) && f.on_level(level) == file
                    && m == n && 0 < n <= input@.len(),
                None => r is None,
            },
    {
        let len = input.len();
        let (level, a) = match get_level(input) {
            Some(found) => found,
            None => {
                return None;
            },
        };
        let (number, b) = match read_varint64(tail(input, a)) {
            Some(found) => found,
            None => {
                return None;
            },
        };
        let (file_size, c) = match read_varint64(tail(input, a + b)) {
            Some(found) => found,
            None => {
                return None;
            },
        };
        let (smallest, d) = match get_internal_key(tail(input, a + b + c)) {
            Some(found) => found,
            None => {
                return None;
            },
        };
        let (largest, e) = match get_internal_key(tail(input, a + b + c + d)) {
            Some(found) => found,
            None => {
                return None;
            },
        };
        let f = FileMetaData { refs: 0, allowed_seeks: 0, number, file_size, smallest, largest };
        Some((level, f, a + b + c + d + e))
    }

    /// Reads one field from the front of `input` into the edit; returns
    /// the count of bytes read, or `None` where the tag is unknown or the
    /// field is malformed.
    #[verifier::rlimit(30)]
    fn decode_field(&mut self, input: &[u8]) -> (r: Option<usize>)
        ensures
            match field_parse(input@) {
                Some((field, n)) => r == Some(n as usize) && 0 < n <= input@.len() && final(self)@
                    == old(self)@.with(field),
                None => r is None,
            },
    {
        let len = input.len();
        let (tag, n) = match read_varint32(input) {
            Some(found) => found,
            None => {
                return None;
            },
        };
        let body = tail(input, n);
        if tag == TAG_COMPARATOR {
            match read_slice(body) {
                Some((name, m)) => {
                    self.comparator = vstd::slice::slice_to_vec(name.data());
                    self.has_comparator = name.size() > 0;
                    Some(n + m)
                },
                None => None,
            }
        } else if tag == TAG_LOG_NUMBER {
            match read_varint64(body) {
                Some((val, m)) => {
                    self.log_number = val;
                    self.has_log_number = true;
                    Some(n + m)
                },
                None => None,
            }
        } else if tag == TAG_PREV_LOG_NUMBER {
            match read_varint64(body) {
                Some((val, m)) => {
                    self.prev_log_number = val;
                    self.has_prev_log_number = true;
                    Some(n + m)
                },
                None => None,
            }
        } else if tag == TAG_NEXT_FILE_NUMBER {
            match read_varint64(body) {
                Some((val, m)) => {
                    self.next_file_number = val;
                    self.has_next_file_number = true;
                    Some(n + m)
                },
                None => None,
            }
        } else if tag == TAG_LAST_SEQUENCE {
            match read_varint64(body) {
                Some((val, m)) => {
                    self.last_sequence = val;
                    self.has_last_sequence = true;
                    Some(n + m)
                },
                None => None,
            }
        } else if tag == TAG_COMPACT_POINTER {
            let (level, a) = match get_level(body) {
                Some(found) => found,
                None => {
                    return None;
                },
            };
            match get_internal_key(tail(body, a)) {
                Some((key, b)) => {
                    self.set_compact_pointer(level, key);
                    Some(n + a + b)
                },
                None => None,
            }
        } else if tag == TAG_DELETED_FILE {
            let (level, a) = match get_level(body) {
                Some(found) => found,
                None => {
                    return None;
                },
            };
            match read_varint64(tail(body, a)) {
                Some((number, b)) => {
                    self.delete_file(level, number);
                    Some(n + a + b)
                },
                None => None,
            }
        } else if tag == TAG_NEW_FILE {
            match Self::parse_new_file(body) {
                Some((level, f, m)) => {
                    self.add_file(level, f);
                    Some(n + m)
                },
                None => None,
            }
        } else {
            None
        }
    }

    /// Appends the comparator's name, where the edit names one.
    fn encode_comparator(&self, dst: &mut Vec<u8>)
        requires
            encodable(self@),
        ensures
            final(dst)@ == old(dst)@ + optional_bytes(
                match self@.comparator {
                    Some(name) => Some(Field::Comparator(name)),
                    None => None,
                },
            ),
    {
        if self.has_comparator {
            put_varint32(dst, TAG_COMPARATOR);
            put_length_prefixed_slice(dst, &Slice::from_bytes(self.comparator.as_slice()));
            assert(dst@ =~= old(dst)@ + field_bytes(Field::Comparator(self.comparator@)));
        } else {
            assert(dst@ =~= old(dst)@ + Seq::<u8>::empty());
        }
    }

    /// Appends a tag and a number, where there is a number.
    fn put_optional(dst: &mut Vec<u8>, tag: u32, value: Option<u64>)
        ensures
            final(dst)@ == old(dst)@ + match value {
                Some(v) => varint_bytes(tag as nat) + varint_bytes(v as nat),
                None => Seq::empty(),
            },
    {
        match value {
            Some(v) => {
                put_varint32(dst, tag);
                put_varint64(dst, v);
                assert(dst@ =~= old(dst)@ + (varint_bytes(tag as nat) + varint_bytes(v as nat)));
            },
            None => {
                assert(dst@ =~= old(dst)@ + Seq::<u8>::empty());
            },
        }
    }

    /// Appends the fields that set numbers.
    #[verifier::rlimit(30)]
    fn encode_numbers(&self, dst: &mut Vec<u8>)
        requires
            encodable(self@),
        ensures
            final(dst)@ == old(dst)@ + fields_bytes(number_fields(self@)),
    {
        let ghost edit = self@;
        let ghost a = optional_bytes(
            match edit.comparator {
                Some(name) => Some(Field::Comparator(name)),
                None => None,
            },
        );
        let ghost b = optional_bytes(
            match edit.log_number {
                Some(n) => Some(Field::LogNumber(n)),
                None => None,
            },
        );
        let ghost c = optional_bytes(
            match edit.prev_log_number {
                Some(n) => Some(Field::PrevLogNumber(n)),
                None => None,
            },
        );
        let ghost d = optional_bytes(
            match edit.next_file_number {
                Some(n) => Some(Field::NextFileNumber(n)),
                None => None,
            },
        );
        let ghost e = optional_bytes(
            match edit.last_sequence {
                Some(n) => Some(Field::LastSequence(n)),
                None => None,
            },
        );
        self.encode_comparator(dst);
        assert(dst@ == old(dst)@ + a);
        Self::put_optional(dst, TAG_LOG_NUMBER, self.log_number());
        assert(dst@ == old(dst)@ + a + b);
        Self::put_optional(dst, TAG_PREV_LOG_NUMBER, self.prev_log_number());
        assert(dst@ == old(dst)@ + a + b + c);
        Self::put_optional(dst, TAG_NEXT_FILE_NUMBER, self.next_file_number());
        assert(dst@ == old(dst)@ + a + b + c + d);
        Self::put_optional(dst, TAG_LAST_SEQUENCE, self.last_sequence());
        assert(dst@ == old(dst)@ + a + b + c + d + e);
        proof {
            lemma_number_fields(edit);
            lemma_concat5(old(dst)@, a, b, c, d, e);
        }
    }

    /// Appends the compaction pointers.
    fn encode_pointers(&self, dst: &mut Vec<u8>)
        requires
            encodable(self@),
        ensures
            final(dst)@ == old(dst)@ + fields_bytes(pointer_fields(self@.compact_pointers)),
    {
        let ghost pointers = self@.compact_pointers;
        let mut i: usize = 0;
        proof {
            assert(pointer_fields(pointers.take(0)) =~= Seq::<Field>::empty());
            assert(dst@ + fields_bytes(Seq::<Field>::empty()) =~= dst@);
        }
        while i < self.compact_pointers.len()
            invariant
                encodable(self@),
                pointers == self@.compact_pointers,
                pointers.len() == self.compact_pointers@.len(),
                i <= self.compact_pointers@.len(),
                dst@ == old(dst)@ + fields_bytes(pointer_fields(pointers.take(i as int))),
            decreases self.compact_pointers@.len() - i,
        {
            let ghost before = dst@;
            let ghost done = pointer_fields(pointers.take(i as int));
            let ghost field = Field::CompactPointer(pointers[i as int].0, pointers[i as int].1);
            let level = self.compact_pointers[i].0;
            put_varint32(dst, TAG_COMPACT_POINTER);
            put_varint32(dst, level);
            put_length_prefixed_slice(dst, &self.compact_pointers[i].1.encode());
            proof {
                assert(dst@ =~= before + field_bytes(field));
                lemma_fields_push(old(dst)@, done, field);
                assert(pointer_fields(pointers.take(i + 1)) =~= done.push(field));
            }
            i += 1;
        }
        assert(pointers.take(i as int) =~= pointers);
    }

    /// Appends the deleted files.
    fn encode_deleted(&self, dst: &mut Vec<u8>)
        ensures
            final(dst)@ == old(dst)@ + fields_bytes(deleted_fields(self@.deleted_files)),
    {
        let ghost deleted = self@.deleted_files;
        let mut i: usize = 0;
        proof {
            assert(deleted_fields(deleted.take(0)) =~= Seq::<Field>::empty());
            assert(dst@ + fields_bytes(Seq::<Field>::empty()) =~= dst@);
        }
        while i < self.deleted_files.len()
            invariant
                deleted == self@.deleted_files,
                deleted == self.deleted_files@,
                i <= self.deleted_files@.len(),
                dst@ == old(dst)@ + fields_bytes(deleted_fields(deleted.take(i as int))),
            decreases self.deleted_files@.len() - i,
        {
            let ghost before = dst@;
            let ghost done = deleted_fields(deleted.take(i as int));
            let ghost field = Field::DeletedFile(deleted[i as int].0, deleted[i as int].1);
            let level = self.deleted_files[i].0;
            let number = self.deleted_files[i].1;
            put_varint32(dst, TAG_DELETED_FILE);
            put_varint32(dst, level);
            put_varint64(dst, number);
            proof {
                assert(dst@ =~= before + field_bytes(field));
                lemma_fields_push(old(dst)@, done, field);
                assert(deleted_fields(deleted.take(i + 1)) =~= done.push(field));
            }
            i += 1;
        }
        assert(deleted.take(i as int) =~= deleted);
    }

    /// Appends the new files.
    fn encode_new_files(&self, dst: &mut Vec<u8>)
        requires
            encodable(self@),
        ensures
            final(dst)@ == old(dst)@ + fields_bytes(new_file_fields(self@.new_files)),
    {
        let ghost files = self@.new_files;
        let mut i: usize = 0;
        proof {
            assert(new_file_fields(files.take(0)) =~= Seq::<Field>::empty());
            assert(dst@ + fields_bytes(Seq::<Field>::empty()) =~= dst@);
        }
        while i < self.new_files.len()
            invariant
                encodable(self@),
                files == self@.new_files,
                files.len() == self.new_files@.len(),
                i <= self.new_files@.len(),
                dst@ == old(dst)@ + fields_bytes(new_file_fields(files.take(i as int))),
            decreases self.new_files@.len() - i,
        {
            let ghost before = dst@;
            let ghost done = new_file_fields(files.take(i as int));
            let ghost field = Field::NewFile(files[i as int]);
            let level = self.new_files[i].0;
            let file = &self.new_files[i].1;
            put_varint32(dst, TAG_NEW_FILE);
            put_varint32(dst, level);
            put_varint64(dst, file.number);
            put_varint64(dst, file.file_size);
            put_length_prefixed_slice(dst, &file.smallest.encode());
            put_length_prefixed_slice(dst, &file.largest.encode());
            proof {
                assert(dst@ =~= before + field_bytes(field));
                lemma_fields_push(old(dst)@, done, field);
                assert(new_file_fields(files.take(i + 1)) =~= done.push(field));
            }
            i += 1;
        }
        assert(files.take(i as int) =~= files);
    }

    /// Appends the bytes of the edit to `dst`: the fields that are set, in
    /// the order comparator, log number, previous log number, next file
    /// number, last sequence number, then the compaction pointers, the
    /// deleted files and the new files.
    pub fn encode_to(&self, dst: &mut Vec<u8>)
        requires
            encodable(self@),
        ensures
            final(dst)@ == old(dst)@ + edit_bytes(self@),
    {
        self.encode_numbers(dst);
        self.encode_pointers(dst);
        self.encode_deleted(dst);
        self.encode_new_files(dst);
        proof {
            let a = number_fields(self@);
            let b = pointer_fields(self@.compact_pointers);
            let c = deleted_fields(self@.deleted_files);
            let d = new_file_fields(self@.new_files);
            lemma_fields_concat(a, b);
            lemma_fields_concat(a + b, c);
            lemma_fields_concat(a + b + c, d);
            assert(dst@ =~= old(dst)@ + (fields_bytes(a) + fields_bytes(b) + fields_bytes(c)
                + fields_bytes(d)));
        }
    }

    /// Reads an edit from `input`: one field after another until the
    /// bytes end. Fails with `Corruption` where a tag is unknown or a
    /// field is malformed.
    pub fn decode_from(input: &[u8]) -> (r: Result<Self, Error>)
        ensures
            match edit_parse(input@) {
                Some(edit) => r matches Ok(e) && e@ == edit,
                None => r matches Err(err) && err == Error::Corruption,
            },
    {
        let limit = input.len();
        let mut offset: usize = 0;
        let mut edit = VersionEdit::empty();
        assert(input@.skip(0) =~= input@);
        while offset < limit
            invariant
                offset <= limit == input@.len(),
                edit_parse(input@) == fields_parse(input@.skip(offset as int), edit@),
            decreases limit - offset,
        {
            let rest = tail(input, offset);
            match edit.decode_field(rest) {
                Some(n) => {
                    assert(rest@.skip(n as int) =~= input@.skip(offset + n));
                    offset = offset + n;
                },
                None => {
                    return Err(Error::Corruption);
                },
            }
        }
        Ok(edit)
    }
}


/// Whether a field can be written and read back: its strings fit their
/// length prefixes, and its level is one of the levels.
pub open spec fn field_ok(field: Field) -> bool {
    match field {
        Field::Comparator(name) => name.len() <= u32::MAX,
        Field::CompactPointer(level, key) => level < NUM_LEVELS && key.len() <= u32::MAX,
        Field::DeletedFile(level, number) => level < NUM_LEVELS,
        Field::NewFile(file) => file.level < NUM_LEVELS && file.smallest.len() <= u32::MAX
            && file.largest.len() <= u32::MAX,
        _ => true,
    }
}

/// Whether an edit is read back as it is: its fields can be written and
/// read back, and the name of its comparator, where it has one, is not
/// empty.
pub open spec fn canonical(edit: Edit) -> bool {
    &&& match edit.comparator {
        Some(name) => 0 < name.len() <= u32::MAX,
        None => true,
    }
    &&& forall|i: int|
        0 <= i < edit.compact_pointers.len() ==> field_ok(
            Field::CompactPointer(
                (#[trigger] edit.compact_pointers[i]).0,
                edit.compact_pointers[i].1,
            ),
        )
    &&& forall|i: int|
        0 <= i < edit.deleted_files.len() ==> (#[trigger] edit.deleted_files[i]).0 < NUM_LEVELS
    &&& forall|i: int|
        0 <= i < edit.new_files.len() ==> field_ok(Field::NewFile(#[trigger] edit.new_files[i]))
}

/// The edit after `fields` were added to it in turn.
pub open spec fn with_all(edit: Edit, fields: Seq<Field>) -> Edit
    decreases fields.len(),
{
    if fields.len() == 0 {
        edit
    } else {
        with_all(edit.with(fields[0]), fields.skip(1))
    }
}

/// A number behind a tag is read back, whatever follows.
proof fn lemma_number_round_trip(tag: u32, value: u64, rest: Seq<u8>)
    ensures
        ({
            let s = varint_bytes(tag as nat) + varint_bytes(value as nat) + rest;
            let n = varint_bytes(tag as nat).len();
            let m = varint_bytes(value as nat).len();
            &&& varint32_parse(s) == Some((tag, n))
            &&& varint64_parse(s.skip(n as int)) == Some((value, m))
            &&& n > 0
            &&& s.skip((n + m) as int) == rest
        }),
{
    let a = varint_bytes(tag as nat);
    let b = varint_bytes(value as nat);
    let s = a + b + rest;
    assert(s =~= a + (b + rest));
    crate::coding::varint32_round_trip(tag, b + rest);
    crate::coding::varint64_round_trip(value, rest);
    crate::coding::lemma_varint_round_trip(
        tag as nat,
        Seq::empty(),
        crate::coding::varint_len(tag as nat),
    );
    crate::coding::lemma_varint_round_trip(
        value as nat,
        Seq::empty(),
        crate::coding::varint_len(value as nat),
    );
    assert(s.skip(a.len() as int) =~= b + rest);
    assert(s.skip((a.len() + b.len()) as int) =~= rest);
}

/// A level behind a tag is read back, whatever follows.
proof fn lemma_level_round_trip(tag: u32, level: u32, rest: Seq<u8>)
    requires
        level < NUM_LEVELS,
    ensures
        ({
            let s = varint_bytes(tag as nat) + varint_bytes(level as nat) + rest;
            let n = varint_bytes(tag as nat).len();
            let m = varint_bytes(level as nat).len();
            &&& varint32_parse(s) == Some((tag, n))
            &&& level_parse(s.skip(n as int)) == Some((level, m))
            &&& n > 0
            &&& s.skip((n + m) as int) == rest
            &&& s.skip(n as int).skip(m as int) == rest
        }),
{
    let a = varint_bytes(tag as nat);
    let b = varint_bytes(level as nat);
    let s = a + b + rest;
    assert(s =~= a + (b + rest));
    crate::coding::varint32_round_trip(tag, b + rest);
    crate::coding::varint32_round_trip(level, rest);
    crate::coding::lemma_varint_round_trip(
        tag as nat,
        Seq::empty(),
        crate::coding::varint_len(tag as nat),
    );
    crate::coding::lemma_varint_round_trip(
        level as nat,
        Seq::empty(),
        crate::coding::varint_len(level as nat),
    );
    assert(s.skip(a.len() as int) =~= b + rest);
    assert(s.skip((a.len() + b.len()) as int) =~= rest);
    assert(s.skip(a.len() as int).skip(b.len() as int) =~= rest);
}

/// A string behind its length is read back, whatever follows, and what
/// follows is left.
proof fn lemma_string_round_trip(data: Seq<u8>, rest: Seq<u8>)
    requires
        data.len() <= u32::MAX,
    ensures
        ({
            let s = length_prefixed_bytes(data) + rest;
            let n = length_prefixed_bytes(data).len();
            &&& length_prefixed_parse(s) == Some((data, n))
            &&& n > 0
            &&& s.skip(n as int) == rest
        }),
{
    crate::coding::length_prefixed_round_trip(data, rest);
    let s = length_prefixed_bytes(data) + rest;
    assert(s.skip(length_prefixed_bytes(data).len() as int) =~= rest);
    crate::coding::lemma_varint_len_bounds(data.len());
}

/// The body of a new file is read back, whatever follows.
proof fn lemma_new_file_round_trip(file: NewFile, rest: Seq<u8>)
    requires
        field_ok(Field::NewFile(file)),
    ensures
        ({
            let body = varint_bytes(file.level as nat) + varint_bytes(file.number as nat)
                + varint_bytes(file.file_size as nat) + length_prefixed_bytes(file.smallest)
                + length_prefixed_bytes(file.largest);
            new_file_parse(body + rest) == Some((file, body.len()))
        }),
{
    let a = varint_bytes(file.level as nat);
    let b = varint_bytes(file.number as nat);
    let c = varint_bytes(file.file_size as nat);
    let d = length_prefixed_bytes(file.smallest);
    let e = length_prefixed_bytes(file.largest);
    let s = a + b + c + d + e + rest;
    assert(s =~= a + (b + c + d + e + rest));
    crate::coding::varint32_round_trip(file.level, b + c + d + e + rest);
    crate::coding::lemma_varint_round_trip(
        file.level as nat,
        Seq::empty(),
        crate::coding::varint_len(file.level as nat),
    );
    let s1 = s.skip(a.len() as int);
    assert(s1 =~= b + (c + d + e + rest));
    crate::coding::varint64_round_trip(file.number, c + d + e + rest);
    crate::coding::lemma_varint_round_trip(
        file.number as nat,
        Seq::empty(),
        crate::coding::varint_len(file.number as nat),
    );
    let s2 = s.skip((a.len() + b.len()) as int);
    assert(s2 =~= c + (d + e + rest));
    crate::coding::varint64_round_trip(file.file_size, d + e + rest);
    crate::coding::lemma_varint_round_trip(
        file.file_size as nat,
        Seq::empty(),
        crate::coding::varint_len(file.file_size as nat),
    );
    let s3 = s.skip((a.len() + b.len() + c.len()) as int);
    assert(s3 =~= d + (e + rest));
    lemma_string_round_trip(file.smallest, e + rest);
    let s4 = s.skip((a.len() + b.len() + c.len() + d.len()) as int);
    assert(s4 =~= e + rest);
    lemma_string_round_trip(file.largest, rest);
    assert(a + b + c + d + e + rest =~= (a + b + c + d + e) + rest);
}

/// A field is read back, whatever follows, and what follows is left.
pub proof fn lemma_field_round_trip(field: Field, rest: Seq<u8>)
    requires
        field_ok(field),
    ensures
        field_parse(field_bytes(field) + rest) == Some((field, field_bytes(field).len())),
        field_bytes(field).len() > 0,
        (field_bytes(field) + rest).skip(field_bytes(field).len() as int) == rest,
{
    let s = field_bytes(field) + rest;
    assert(s.skip(field_bytes(field).len() as int) =~= rest);
    match field {
        Field::Comparator(name) => {
            let tag = varint_bytes(TAG_COMPARATOR as nat);
            assert(s =~= tag + (length_prefixed_bytes(name) + rest));
            crate::coding::varint32_round_trip(TAG_COMPARATOR, length_prefixed_bytes(name) + rest);
            crate::coding::lemma_varint_round_trip(TAG_COMPARATOR as nat, Seq::empty(), 1);
            assert(s.skip(tag.len() as int) =~= length_prefixed_bytes(name) + rest);
            lemma_string_round_trip(name, rest);
        },
        Field::LogNumber(n) => {
            lemma_number_round_trip(TAG_LOG_NUMBER, n, rest);
        },
        Field::PrevLogNumber(n) => {
            lemma_number_round_trip(TAG_PREV_LOG_NUMBER, n, rest);
        },
        Field::NextFileNumber(n) => {
            lemma_number_round_trip(TAG_NEXT_FILE_NUMBER, n, rest);
        },
        Field::LastSequence(n) => {
            lemma_number_round_trip(TAG_LAST_SEQUENCE, n, rest);
        },
        Field::CompactPointer(level, key) => {
            let tag = varint_bytes(TAG_COMPACT_POINTER as nat);
            let lv = varint_bytes(level as nat);
            assert(s =~= tag + lv + (length_prefixed_bytes(key) + rest));
            lemma_level_round_trip(TAG_COMPACT_POINTER, level, length_prefixed_bytes(key) + rest);
            lemma_string_round_trip(key, rest);
        },
        Field::DeletedFile(level, number) => {
            let tag = varint_bytes(TAG_DELETED_FILE as nat);
            let lv = varint_bytes(level as nat);
            let num = varint_bytes(number as nat);
            assert(s =~= tag + lv + (num + rest));
            lemma_level_round_trip(TAG_DELETED_FILE, level, num + rest);
            crate::coding::varint64_round_trip(number, rest);
            crate::coding::lemma_varint_round_trip(
                number as nat,
                Seq::empty(),
                crate::coding::varint_len(number as nat),
            );
        },
        Field::NewFile(file) => {
            let tag = varint_bytes(TAG_NEW_FILE as nat);
            let body = varint_bytes(file.level as nat) + varint_bytes(file.number as nat)
                + varint_bytes(file.file_size as nat) + length_prefixed_bytes(file.smallest)
                + length_prefixed_bytes(file.largest);
            assert(s =~= tag + (body + rest));
            assert(field_bytes(field) =~= tag + body);
            crate::coding::varint32_round_trip(TAG_NEW_FILE, body + rest);
            crate::coding::lemma_varint_round_trip(TAG_NEW_FILE as nat, Seq::empty(), 1);
            assert(s.skip(tag.len() as int) =~= body + rest);
            lemma_new_file_round_trip(file, rest);
        },
    }
}

/// Fields that are written one after another are read back in turn.
pub proof fn lemma_fields_round_trip(fields: Seq<Field>, edit: Edit)
    requires
        forall|i: int| 0 <= i < fields.len() ==> field_ok(#[trigger] fields[i]),
    ensures
        fields_parse(fields_bytes(fields), edit) == Some(with_all(edit, fields)),
    decreases fields.len(),
{
    if fields.len() > 0 {
        let first = fields[0];
        let others = fields.skip(1);
        assert(fields =~= seq![first] + others);
        lemma_fields_concat(seq![first], others);
        lemma_optional(Some(first));
        lemma_field_round_trip(first, fields_bytes(others));
        assert forall|i: int| 0 <= i < others.len() implies field_ok(#[trigger] others[i]) by {
            assert(others[i] == fields[i + 1]);
        }
        lemma_fields_round_trip(others, edit.with(first));
    }
}

/// Adding fields and then more fields is adding all of them.
pub proof fn lemma_with_all_concat(edit: Edit, a: Seq<Field>, b: Seq<Field>)
    ensures
        with_all(edit, a + b) == with_all(with_all(edit, a), b),
    decreases a.len(),
{
    if a.len() == 0 {
        assert(a + b =~= b);
    } else {
        assert((a + b).skip(1) =~= a.skip(1) + b);
        lemma_with_all_concat(edit.with(a[0]), a.skip(1), b);
    }
}

/// Adding a field, where there is one.
proof fn lemma_with_optional(edit: Edit, field: Option<Field>)
    ensures
        with_all(edit, optional(field)) == match field {
            Some(f) => edit.with(f),
            None => edit,
        },
{
    reveal_with_fuel(with_all, 2);
    match field {
        Some(f) => {
            assert(seq![f].skip(1) =~= Seq::<Field>::empty());
        },
        None => {},
    }
}

/// Adding compaction pointers puts them at the end of the pointers.
proof fn lemma_with_pointers(edit: Edit, list: Seq<(u32, Seq<u8>)>)
    ensures
        with_all(edit, pointer_fields(list)) == (Edit {
            compact_pointers: edit.compact_pointers + list,
            ..edit
        }),
    decreases list.len(),
{
    let fields = pointer_fields(list);
    if list.len() == 0 {
        assert(edit.compact_pointers + list =~= edit.compact_pointers);
    } else {
        assert(fields.skip(1) =~= pointer_fields(list.skip(1)));
        lemma_with_pointers(edit.with(fields[0]), list.skip(1));
        assert(edit.compact_pointers.push(list[0]) + list.skip(1) =~= edit.compact_pointers
            + list);
    }
}

/// Adding deleted files puts them at the end of the deleted files.
proof fn lemma_with_deleted(edit: Edit, list: Seq<(u32, u64)>)
    ensures
        with_all(edit, deleted_fields(list)) == (Edit {
            deleted_files: edit.deleted_files + list,
            ..edit
        }),
    decreases list.len(),
{
    let fields = deleted_fields(list);
    if list.len() == 0 {
        assert(edit.deleted_files + list =~= edit.deleted_files);
    } else {
        assert(fields.skip(1) =~= deleted_fields(list.skip(1)));
        lemma_with_deleted(edit.with(fields[0]), list.skip(1));
        assert(edit.deleted_files.push(list[0]) + list.skip(1) =~= edit.deleted_files + list);
    }
}

/// Adding new files puts them at the end of the new files.
proof fn lemma_with_new_files(edit: Edit, list: Seq<NewFile>)
    ensures
        with_all(edit, new_file_fields(list)) == (Edit {
            new_files: edit.new_files + list,
            ..edit
        }),
    decreases list.len(),
{
    let fields = new_file_fields(list);
    if list.len() == 0 {
        assert(edit.new_files + list =~= edit.new_files);
    } else {
        assert(fields.skip(1) =~= new_file_fields(list.skip(1)));
        lemma_with_new_files(edit.with(fields[0]), list.skip(1));
        assert(edit.new_files.push(list[0]) + list.skip(1) =~= edit.new_files + list);
    }
}

/// An edit that is written and then read comes back as it was.
pub proof fn version_edit_round_trip(edit: Edit)
    requires
        canonical(edit),
    ensures
        edit_parse(edit_bytes(edit)) == Some(edit),
{
    let a = optional(
        match edit.comparator {
            Some(name) => Some(Field::Comparator(name)),
            None => None,
        },
    );
    let b = optional(
        match edit.log_number {
            Some(n) => Some(Field::LogNumber(n)),
            None => None,
        },
    );
    let c = optional(
        match edit.prev_log_number {
            Some(n) => Some(Field::PrevLogNumber(n)),
            None => None,
        },
    );
    let d = optional(
        match edit.next_file_number {
            Some(n) => Some(Field::NextFileNumber(n)),
            None => None,
        },
    );
    let e = optional(
        match edit.last_sequence {
            Some(n) => Some(Field::LastSequence(n)),
            None => None,
        },
    );
    let p = pointer_fields(edit.compact_pointers);
    let q = deleted_fields(edit.deleted_files);
    let r = new_file_fields(edit.new_files);
    let fields = fields_of(edit);
    assert(fields == a + b + c + d + e + p + q + r);
    assert forall|i: int| 0 <= i < fields.len() implies field_ok(#[trigger] fields[i]) by {
        let numbers = a + b + c + d + e;
        if i < numbers.len() {
        } else if i < numbers.len() + p.len() {
            assert(fields[i] == p[i - numbers.len()]);
        } else if i < numbers.len() + p.len() + q.len() {
            assert(fields[i] == q[i - numbers.len() - p.len()]);
        } else {
            assert(fields[i] == r[i - numbers.len() - p.len() - q.len()]);
        }
    }
    lemma_fields_round_trip(fields, Edit::empty());
    let e0 = Edit::empty();
    lemma_with_all_concat(e0, a + b + c + d + e + p + q, r);
    lemma_with_all_concat(e0, a + b + c + d + e + p, q);
    lemma_with_all_concat(e0, a + b + c + d + e, p);
    lemma_with_all_concat(e0, a + b + c + d, e);
    lemma_with_all_concat(e0, a + b + c, d);
    lemma_with_all_concat(e0, a + b, c);
    lemma_with_all_concat(e0, a, b);
    let e1 = with_all(e0, a);
    lemma_with_optional(
        e0,
        match edit.comparator {
            Some(name) => Some(Field::Comparator(name)),
            None => None,
        },
    );
    let e2 = with_all(e1, b);
    lemma_with_optional(
        e1,
        match edit.log_number {
            Some(n) => Some(Field::LogNumber(n)),
            None => None,
        },
    );
    let e3 = with_all(e2, c);
    lemma_with_optional(
        e2,
        match edit.prev_log_number {
            Some(n) => Some(Field::PrevLogNumber(n)),
            None => None,
        },
    );
    let e4 = with_all(e3, d);
    lemma_with_optional(
        e3,
        match edit.next_file_number {
            Some(n) => Some(Field::NextFileNumber(n)),
            None => None,
        },
    );
    let e5 = with_all(e4, e);
    lemma_with_optional(
        e4,
        match edit.last_sequence {
            Some(n) => Some(Field::LastSequence(n)),
            None => None,
        },
    );
    lemma_with_pointers(e5, edit.compact_pointers);
    let e6 = with_all(e5, p);
    lemma_with_deleted(e6, edit.deleted_files);
    let e7 = with_all(e6, q);
    lemma_with_new_files(e7, edit.new_files);
    let e8 = with_all(e7, r);
    assert(e8.compact_pointers =~= edit.compact_pointers);
    assert(e8.deleted_files =~= edit.deleted_files);
    assert(e8.new_files =~= edit.new_files);
    assert(e8 == edit);
}

} // verus!
