//! The ingest path: deciding a file's encoding by its name, decoding the
//! payload, splitting it into record lines, parsing each line into a
//! structured value and converting it to the store's document form, and
//! naming the processed-area destination that marks a file as done.
//!
//! Reading the file, the bulk insert and the relocation are outside work;
//! the caller hands the raw bytes in and takes the documents out.

use vstd::prelude::*;

verus! {

#[verifier::external_type_specification]
#[verifier::external_body]
pub struct ExDocument(bson::Document);

/// Whether bzip2 decoding of these bytes succeeds: a function of the
/// bytes alone.
pub uninterp spec fn bz_ok(data: Seq<u8>) -> bool;

/// What bzip2 decoding of these bytes yields: a function of the bytes
/// alone.
pub uninterp spec fn bz_plain_of(data: Seq<u8>) -> Seq<u8>;

/// Whether these bytes parse as one structured record: a function of the
/// bytes alone.
pub uninterp spec fn json_line_ok(line: Seq<u8>) -> bool;

/// Whether the record these bytes parse as has a document form: a
/// function of the bytes alone. Meaningful only where `json_line_ok`
/// holds.
pub uninterp spec fn line_doc_ok(line: Seq<u8>) -> bool;

/// A line parses and its record takes the store's document form.
pub open spec fn line_ingestible(line: Seq<u8>) -> bool {
    json_line_ok(line) && line_doc_ok(line)
}

/// Relies on bzip2's decoder: the outcome — success or failure, and the
/// decoded bytes on success — is a function of the input bytes alone.
/// Data after the first complete stream is ignored.
#[verifier::external_body]
fn bz_decompress(data: &Vec<u8>) -> (r: Option<Vec<u8>>)
    ensures
        r is Some <==> bz_ok(data@),
        r is Some ==> r->0@ == bz_plain_of(data@),
{
    let mut out = Vec::new();
    let mut decoder = bzip2::read::BzDecoder::new(data.as_slice());
    match std::io::Read::read_to_end(&mut decoder, &mut out) {
        Ok(_) => Some(out),
        Err(_) => None,
    }
}

/// What one record line yields.
pub enum LineOutcome {
    /// The line parses and its record has a document form.
    Doc(bson::Document),
    /// The line is not a structured record at all.
    NotJson,
    /// The line parses, but its record has no document form.
    NoDocForm,
}

/// Relies on serde_json::from_slice, then bson::to_document: whether the
/// bytes parse, and whether the parsed record has a document form, are
/// each a function of the bytes alone; both callees return their errors.
#[verifier::external_body]
fn line_to_document(line: &Vec<u8>) -> (r: LineOutcome)
    ensures
        (r is Doc) == (json_line_ok(line@) && line_doc_ok(line@)),
        (r is NotJson) == !json_line_ok(line@),
        (r is NoDocForm) == (json_line_ok(line@) && !line_doc_ok(line@)),
{
    match serde_json::from_slice::<serde_json::Value>(line.as_slice()) {
        Ok(value) => match bson::to_document(&value) {
            Ok(doc) => LineOutcome::Doc(doc),
            Err(_) => LineOutcome::NoDocForm,
        },
        Err(_) => LineOutcome::NotJson,
    }
}

/// A compressed file is recognized by its name alone: it ends in `bz2`.
pub open spec fn compressed_name(name: Seq<char>) -> bool {
    name.len() >= 3 && name.subrange(name.len() - 3, name.len() as int) == seq!['b', 'z', '2']
}

/// Whether a file name marks its payload as compressed.
pub fn is_compressed_name(name: &str) -> (r: bool)
    ensures
        r == compressed_name(name@),
{
    let n = name.unicode_len();
    if n < 3 {
        return false;
    }
    let r = name.get_char(n - 3) == 'b' && name.get_char(n - 2) == 'z' && name.get_char(n - 1)
        == '2';
    proof {
        if r {
            assert(name@.subrange(n - 3, n as int) =~= seq!['b', 'z', '2']);
        } else {
            assert(name@.subrange(n - 3, n as int)[0] == name@[n - 3]);
            assert(name@.subrange(n - 3, n as int)[1] == name@[n - 2]);
            assert(name@.subrange(n - 3, n as int)[2] == name@[n - 1]);
        }
    }
    r
}

/// The newline-separated lines of `content` with the empty ones dropped,
/// folded left to right: `.0` are the lines already ended by a newline,
/// `.1` is the one still open.
pub open spec fn split_state(content: Seq<u8>) -> (Seq<Seq<u8>>, Seq<u8>)
    decreases content.len(),
{
    if content.len() == 0 {
        (Seq::empty(), Seq::empty())
    } else {
        let r = split_state(content.drop_last());
        if content.last() == 10 {
            if r.1.len() > 0 {
                (r.0.push(r.1), Seq::empty())
            } else {
                (r.0, Seq::empty())
            }
        } else {
            (r.0, r.1.push(content.last()))
        }
    }
}

/// The nonempty record lines of a payload.
pub open spec fn record_lines(content: Seq<u8>) -> Seq<Seq<u8>> {
    let r = split_state(content);
    if r.1.len() > 0 {
        r.0.push(r.1)
    } else {
        r.0
    }
}

/// An incremental line splitter: a large payload is fed in chunks of any
/// size, so that no caller has to buffer a whole decoded file. The lines
/// handed out at the end are exactly those of the concatenation of the
/// fed chunks.
pub struct LineSplitter {
    done: Vec<Vec<u8>>,
    cur: Vec<u8>,
    fed: Ghost<Seq<u8>>,
}

impl LineSplitter {
    /// All bytes fed so far.
    pub closed spec fn fed_bytes(self) -> Seq<u8> {
        self.fed@
    }

    /// The splitter's state models the fold over the fed bytes.
    pub closed spec fn wf(self) -> bool {
        &&& self.done@.map_values(|l: Vec<u8>| l@) == split_state(self.fed@).0
        &&& self.cur@ == split_state(self.fed@).1
    }

    /// A splitter that has seen nothing.
    pub fn new() -> (r: LineSplitter)
        ensures
            r.fed_bytes() == Seq::<u8>::empty(),
            r.wf(),
    {
        let r = LineSplitter { done: Vec::new(), cur: Vec::new(), fed: Ghost(Seq::empty()) };
        proof {
            assert(r.done@.map_values(|l: Vec<u8>| l@) =~= split_state(r.fed@).0);
            assert(r.cur@ =~= split_state(r.fed@).1);
        }
        r
    }

    /// Feeds the next chunk of the payload.
    pub fn push_chunk(&mut self, chunk: &Vec<u8>)
        requires
            old(self).wf(),
        ensures
            final(self).wf(),
            final(self).fed_bytes() == old(self).fed_bytes() + chunk@,
    {
        let ghost fed0 = self.fed@;
        let mut i: usize = 0;
        while i < chunk.len()
            invariant
                i <= chunk.len(),
                self.fed@ == fed0,
                self.done@.map_values(|l: Vec<u8>| l@) == split_state(
                    fed0 + chunk@.take(i as int),
                ).0,
                self.cur@ == split_state(fed0 + chunk@.take(i as int)).1,
            decreases chunk.len() - i,
        {
            proof {
                assert((fed0 + chunk@.take(i + 1)).drop_last() =~= fed0 + chunk@.take(i as int));
                assert((fed0 + chunk@.take(i + 1)).last() == chunk@[i as int]);
            }
            let b = chunk[i];
            if b == 10 {
                if self.cur.len() > 0 {
                    let mut full: Vec<u8> = Vec::new();
                    core::mem::swap(&mut full, &mut self.cur);
                    self.done.push(full);
                    proof {
                        assert(self.done@.map_values(|l: Vec<u8>| l@) =~= split_state(
                            fed0 + chunk@.take(i + 1),
                        ).0);
                    }
                } else {
                    self.cur = Vec::new();
                }
            } else {
                self.cur.push(b);
            }
            i = i + 1;
        }
        proof {
            assert(fed0 + chunk@.take(chunk@.len() as int) =~= fed0 + chunk@);
        }
        self.fed = Ghost(fed0 + chunk@);
    }

    /// Closes the payload and hands out its nonempty lines, in order.
    pub fn finish(self) -> (r: Vec<Vec<u8>>)
        requires
            self.wf(),
        ensures
            r@.map_values(|l: Vec<u8>| l@) == record_lines(self.fed_bytes()),
    {
        let LineSplitter { mut done, cur, fed } = self;
        if cur.len() > 0 {
            done.push(cur);
            proof {
                assert(done@.map_values(|l: Vec<u8>| l@) =~= record_lines(fed@));
            }
        }
        proof {
            assert(done@.map_values(|l: Vec<u8>| l@) =~= record_lines(fed@));
        }
        done
    }
}

/// Splits a whole payload into its nonempty newline-separated lines, in
/// order.
pub fn split_records(content: &Vec<u8>) -> (r: Vec<Vec<u8>>)
    ensures
        r@.map_values(|l: Vec<u8>| l@) == record_lines(content@),
{
    let mut splitter = LineSplitter::new();
    splitter.push_chunk(content);
    proof {
        assert(Seq::<u8>::empty() + content@ =~= content@);
    }
    splitter.finish()
}

/// How one ingest failed.
#[derive(Debug)]
pub enum IngestError {
    /// The payload is marked compressed but is no valid stream.
    Encoding,
    /// A record line is malformed; it is returned with its position.
    Parse { line_index: usize, line: Vec<u8> },
    /// A parsed record has no document form.
    Convert { line_index: usize },
}

/// The bytes the record lines are read from: the decoded payload for a
/// compressed name, the payload itself otherwise.
pub open spec fn effective_content(name: Seq<char>, data: Seq<u8>) -> Seq<u8> {
    if compressed_name(name) {
        bz_plain_of(data)
    } else {
        data
    }
}

fn copy_bytes(v: &Vec<u8>) -> (r: Vec<u8>)
    ensures
        r@ == v@,
{
    let mut out: Vec<u8> = Vec::new();
    let mut i: usize = 0;
    while i < v.len()
        invariant
            i <= v.len(),
            out@ == v@.take(i as int),
        decreases v.len() - i,
    {
        out.push(v[i]);
        proof {
            assert(v@.take(i + 1) =~= v@.take(i as int).push(v@[i as int]));
        }
        i = i + 1;
    }
    proof {
        assert(v@.take(v@.len() as int) =~= v@);
    }
    out
}

/// Turns record lines into the documents to insert: every line must
/// parse and take document form, and the first one that does not fails
/// the whole batch with its position.
pub fn ingest_lines(lines: &Vec<Vec<u8>>) -> (r: Result<Vec<bson::Document>, IngestError>)
    ensures
        ({
            let ls = lines@.map_values(|l: Vec<u8>| l@);
            &&& (forall|i: int|
                0 <= i < ls.len() ==> line_ingestible(#[trigger] ls[i])) ==> r is Ok
            &&& match r {
                Ok(docs) => docs@.len() == ls.len() && (forall|i: int|
                    0 <= i < ls.len() ==> line_ingestible(#[trigger] ls[i])),
                Err(IngestError::Encoding) => false,
                Err(IngestError::Parse { line_index, line }) => {
                    &&& line_index < ls.len()
                    &&& !json_line_ok(ls[line_index as int])
                    &&& line@ == ls[line_index as int]
                    &&& forall|j: int| 0 <= j < line_index ==> line_ingestible(#[trigger] ls[j])
                },
                Err(IngestError::Convert { line_index }) => {
                    &&& line_index < ls.len()
                    &&& json_line_ok(ls[line_index as int])
                    &&& !line_doc_ok(ls[line_index as int])
                    &&& forall|j: int| 0 <= j < line_index ==> line_ingestible(#[trigger] ls[j])
                },
            }
        }),
{
    let ghost ls = lines@.map_values(|l: Vec<u8>| l@);
    let mut docs: Vec<bson::Document> = Vec::new();
    let mut i: usize = 0;
    while i < lines.len()
        invariant
            i <= lines.len(),
            ls == lines@.map_values(|l: Vec<u8>| l@),
            docs@.len() == i,
            forall|j: int| 0 <= j < i ==> line_ingestible(#[trigger] ls[j]),
        decreases lines.len() - i,
    {
        proof {
            assert(ls[i as int] == lines@.map_values(|l: Vec<u8>| l@)[i as int]);
            assert(ls[i as int] == lines@[i as int]@);
        }
        match line_to_document(&lines[i]) {
            LineOutcome::Doc(doc) => {
                docs.push(doc);
            },
            LineOutcome::NotJson => {
                let line = copy_bytes(&lines[i]);
                proof {
                    assert(i < ls.len());
                    assert(!json_line_ok(ls[i as int]));
                    assert(line@ == ls[i as int]);
                }
                return Err(IngestError::Parse { line_index: i, line });
            },
            LineOutcome::NoDocForm => {
                proof {
                    assert(i < ls.len());
                    assert(json_line_ok(ls[i as int]) && !line_doc_ok(ls[i as int]));
                }
                return Err(IngestError::Convert { line_index: i });
            },
        }
        i = i + 1;
    }
    Ok(docs)
}

/// Turns one file's payload into the documents to insert.
///
/// The encoding is decided by the name's suffix alone. Every nonempty
/// line must parse and take document form; the first line that does not
/// fails the whole file, so that a later retry of the same file starts
/// from scratch. On a payload whose every line is ingestible, success is
/// owed: the call returns exactly one document per line.
pub fn ingest_content(file_name: &str, data: &Vec<u8>) -> (r: Result<
    Vec<bson::Document>,
    IngestError,
>)
    ensures
        compressed_name(file_name@) && !bz_ok(data@) ==> r matches Err(IngestError::Encoding),
        ({
            let lines = record_lines(effective_content(file_name@, data@));
            &&& (!(compressed_name(file_name@) && !bz_ok(data@)) && (forall|i: int|
                0 <= i < lines.len() ==> line_ingestible(#[trigger] lines[i]))) ==> r is Ok
            &&& match r {
                Ok(docs) => docs@.len() == lines.len() && (forall|i: int|
                    0 <= i < lines.len() ==> line_ingestible(#[trigger] lines[i])),
                Err(IngestError::Encoding) => compressed_name(file_name@) && !bz_ok(data@),
                Err(IngestError::Parse { line_index, line }) => {
                    &&& line_index < lines.len()
                    &&& !json_line_ok(lines[line_index as int])
                    &&& line@ == lines[line_index as int]
                    &&& forall|j: int| 0 <= j < line_index ==> line_ingestible(#[trigger] lines[j])
                },
                Err(IngestError::Convert { line_index }) => {
                    &&& line_index < lines.len()
                    &&& json_line_ok(lines[line_index as int])
                    &&& !line_doc_ok(lines[line_index as int])
                    &&& forall|j: int| 0 <= j < line_index ==> line_ingestible(#[trigger] lines[j])
                },
            }
        }),
{
    let compressed = is_compressed_name(file_name);
    let content: Vec<u8> = if compressed {
        match bz_decompress(data) {
            Some(decoded) => decoded,
            None => {
                return Err(IngestError::Encoding);
            },
        }
    } else {
        copy_bytes(data)
    };
    proof {
        assert(content@ == effective_content(file_name@, data@));
    }
    let lines = split_records(&content);
    ingest_lines(&lines)
}

/// The base name of a path: what follows its last separator.
pub open spec fn base_name_spec(path: Seq<char>) -> Seq<char>
    decreases path.len(),
{
    if path.len() == 0 {
        path
    } else if path.last() == '/' {
        Seq::empty()
    } else {
        base_name_spec(path.drop_last()).push(path.last())
    }
}

/// The base name of a path.
pub fn base_name(path: &str) -> (r: String)
    ensures
        r@ == base_name_spec(path@),
{
    let n = path.unicode_len();
    let mut start: usize = 0;
    let mut i: usize = 0;
    while i < n
        invariant
            i <= n,
            n == path@.len(),
            start <= i,
            start == 0 || path@[start - 1] == '/',
            forall|k: int| start <= k < i ==> path@[k] != '/',
        decreases n - i,
    {
        if path.get_char(i) == '/' {
            start = i + 1;
        }
        i = i + 1;
    }
    proof {
        lemma_base_name_suffix(path@, start as int);
    }
    let tail = path.substring_char(start, n);
    tail.to_owned()
}

proof fn lemma_base_name_suffix(path: Seq<char>, start: int)
    requires
        0 <= start <= path.len(),
        start == 0 || path[start - 1] == '/',
        forall|k: int| start <= k < path.len() ==> path[k] != '/',
    ensures
        base_name_spec(path) == path.subrange(start, path.len() as int),
    decreases path.len(),
{
    if path.len() == 0 {
        assert(path.subrange(0, 0) =~= path);
    } else if path.last() == '/' {
        assert(start == path.len());
        assert(path.subrange(start, path.len() as int) =~= Seq::<char>::empty());
    } else {
        assert(start < path.len());
        lemma_base_name_suffix(path.drop_last(), start);
        assert(path.drop_last().subrange(start, path.len() - 1) =~= path.subrange(
            start,
            path.len() - 1,
        ));
        assert(path.subrange(start, path.len() - 1).push(path.last()) =~= path.subrange(
            start,
            path.len() as int,
        ));
    }
}

/// The destination a finished file is relocated to: its base name under
/// the processed directory. The relocation is the commit point of one
/// file's ingest.
pub fn processed_destination(processed_dir: &str, path: &str) -> (r: String)
    ensures
        r@ == processed_dir@ + seq!['/'] + base_name_spec(path@),
{
    let mut out = processed_dir.to_owned();
    proof {
        reveal_strlit("/");
    }
    out.append("/");
    let tail = base_name(path);
    out.append(tail.as_str());
    proof {
        assert(out@ =~= processed_dir@ + seq!['/'] + base_name_spec(path@));
    }
    out
}

} // verus!
