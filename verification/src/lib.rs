//! A Git-compatible protocol engine: the content-addressed object model,
//! the pack file binary format with delta reconstruction, the pkt-line wire
//! framing, and the reference resolver used by smart transports.

use vstd::prelude::*;

pub mod digest;
pub mod encoding;
pub mod objects;
pub mod ops;
pub mod pack;
pub mod protocol;
pub mod refs;
pub mod text;
pub mod zlib;

pub use protocol::ProtocolHandler;

verus! {

/// The four content-addressed Git object kinds.
#[derive(Debug, Clone, Copy, PartialEq, Eq, Structural)]
pub enum ObjectType {
    Commit,
    Tree,
    Blob,
    Tag,
}

/// Typed failures of the engine.  Every parse or verify operation reports
/// one of these instead of aborting; a format violation is never papered
/// over with default data.
#[derive(Debug, Clone, Copy, PartialEq, Eq, Structural)]
pub enum GitError {
    /// Bad magic, truncated field, invalid hex, malformed delta instruction.
    Format,
    /// Pack trailer digest does not match the pack body.
    Checksum,
    /// Pack version other than 2.
    UnsupportedVersion,
    /// Unrecognized object type id in a pack entry header.
    UnknownType,
    /// A symbolic reference chain revisits a name.
    Cycle,
    /// A named reference does not exist.
    NotFound,
    /// A branch or tag of that name already exists.
    AlreadyExists,
}

/// The numeric type id a pack entry header carries for each object kind.
pub open spec fn spec_type_code(t: ObjectType) -> u8 {
    match t {
        ObjectType::Commit => 1,
        ObjectType::Tree => 2,
        ObjectType::Blob => 3,
        ObjectType::Tag => 4,
    }
}

/// A content-addressed Git object: its id is the SHA-1 digest of a header
/// naming its type and size followed by its content.
#[derive(Debug, Clone)]
pub struct GitObject {
    /// 40 hexadecimal characters of SHA-1.
    pub id: String,
    pub obj_type: ObjectType,
    pub size: usize,
    pub content: Vec<u8>,
}

/// The mathematical value of a [`GitObject`].
pub ghost struct GitObjectV {
    pub id: Seq<char>,
    pub obj_type: ObjectType,
    pub size: nat,
    pub content: Seq<u8>,
}

impl View for GitObject {
    type V = GitObjectV;

    open spec fn view(&self) -> GitObjectV {
        GitObjectV {
            id: self.id@,
            obj_type: self.obj_type,
            size: self.size as nat,
            content: self.content@,
        }
    }
}

impl GitObjectV {
    /// The declared size agrees with the content.
    pub open spec fn wf(self) -> bool {
        self.size == self.content.len()
    }
}

/// A Git reference: a name bound either to an object id or, when symbolic,
/// to another reference's name.
#[derive(Debug, Clone)]
pub struct GitRef {
    /// For example `refs/heads/main`.
    pub name: String,
    /// An object id, or a reference name when symbolic.
    pub target: String,
    /// Whether the target is another reference.
    pub is_symbolic: bool,
}

/// The mathematical value of a [`GitRef`].
pub ghost struct GitRefV {
    pub name: Seq<char>,
    pub target: Seq<char>,
    pub is_symbolic: bool,
}

impl View for GitRef {
    type V = GitRefV;

    open spec fn view(&self) -> GitRefV {
        GitRefV { name: self.name@, target: self.target@, is_symbolic: self.is_symbolic }
    }
}

/// Repository metadata as a transport sees it.
#[derive(Debug, Clone)]
pub struct Repository {
    pub name: String,
    pub description: Option<String>,
    pub default_branch: String,
    pub refs: Vec<GitRef>,
}

/// One object read back out of a pack: its kind, its declared size, and
/// its decoded payload (for delta entries, the raw delta stream).
#[derive(Debug, Clone)]
pub struct PackEntry {
    pub object_type: ObjectType,
    pub size: usize,
    pub data: Vec<u8>,
}

/// The mathematical value of a [`PackEntry`].
pub ghost struct PackEntryV {
    pub object_type: ObjectType,
    pub size: nat,
    pub data: Seq<u8>,
}

impl View for PackEntry {
    type V = PackEntryV;

    open spec fn view(&self) -> PackEntryV {
        PackEntryV { object_type: self.object_type, size: self.size as nat, data: self.data@ }
    }
}

/// The capability surface a transport consumes: pack and pkt-line
/// parsing and building.  Any component satisfying it can serve a
/// transport; no further hierarchy is required.
pub trait GitProtocol {
    /// Parses a Git pack file; see [`pack::PackParser::parse_pack`].
    fn parse_pack(&self, data: &[u8]) -> (r: Result<Vec<PackEntry>, GitError>)
        ensures
            r matches Ok(v) ==> pack::spec_parse_pack(data@) == Ok::<Seq<PackEntryV>, GitError>(
                pack::entry_views(v@),
            ),
            r matches Err(e) ==> pack::spec_parse_pack(data@) == Err::<Seq<PackEntryV>, GitError>(
                e,
            ),
    ;

    /// Builds a pack file from objects; see
    /// [`pack::PackParser::create_pack`].
    fn create_pack(&self, objects: &[GitObject]) -> (r: Result<Vec<u8>, GitError>)
        ensures
            r is Ok <==> objects@.len() <= u32::MAX as nat,
            r matches Ok(v) ==> v@ == pack::spec_create_pack(pack::obj_views(objects@)),
    ;

    /// Parses pkt-line framing into text lines; see
    /// [`protocol::ProtocolHandler::parse_pkt_line`].
    fn parse_pkt_line(&self, data: &[u8]) -> (r: Result<Vec<String>, GitError>)
        ensures
            r matches Ok(v) ==> protocol::spec_parse_pkt_line(data@) == Ok::<
                Seq<Seq<char>>,
                GitError,
            >(v.deep_view()),
            r matches Err(e) ==> protocol::spec_parse_pkt_line(data@) == Err::<
                Seq<Seq<char>>,
                GitError,
            >(e),
    ;

    /// Frames text lines as pkt-lines; see
    /// [`protocol::ProtocolHandler::create_pkt_line`].
    fn create_pkt_line(&self, lines: &[&str]) -> (r: Result<Vec<u8>, GitError>)
        ensures
            r is Ok <==> protocol::spec_pkt_lines_ok(lines.deep_view()),
            r matches Ok(v) ==> v@ == protocol::spec_create_pkt_line(lines.deep_view()),
    ;
}

} // verus!
