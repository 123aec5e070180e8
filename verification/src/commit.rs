//! Commit objects: a tree reference, parent references, authorship
//! records, and a free-text message, framed as `\n`-terminated header
//! lines, a blank line, and the message bytes verbatim.

use vstd::prelude::*;
use crate::digest::Digest;
use crate::hex::hex_ascii;
use crate::store::{
    append_bytes, store_object, concat_of, digest_of, deflate_of, object_bytes, tag_of, ObjectType,
    StoredObject,
};

verus! {

/// Who did something, and when. The timestamp is kept as a decimal string
/// of seconds since the epoch, so no fixed-width integer can overflow it;
/// nothing here is validated, the fields are framed as given.
#[derive(Clone)]
pub struct Identity {
    pub name: Vec<u8>,
    pub email: Vec<u8>,
    /// Seconds since the epoch, as a decimal ASCII string.
    pub date_seconds: Vec<u8>,
    /// The timezone offset rendering, such as `+0000`.
    pub tz: Vec<u8>,
}

/// One authorship record of a commit: a role tag such as `author` or
/// `committer`, and the identity it names.
#[derive(Clone)]
pub struct Authorship {
    pub role: Vec<u8>,
    pub identity: Identity,
}

/// The default timezone offset rendering, `+0000`.
pub open spec fn default_tz() -> Seq<u8> {
    seq![43u8, 48u8, 48u8, 48u8, 48u8]
}

/// The default timezone offset rendering, `+0000`, as bytes.
pub fn default_tz_bytes() -> (r: Vec<u8>)
    ensures
        r@ == default_tz(),
{
    let mut out: Vec<u8> = Vec::new();
    out.push(43);
    out.push(48);
    out.push(48);
    out.push(48);
    out.push(48);
    proof {
        assert(out@ =~= default_tz());
    }
    out
}

impl Identity {
    /// An identity with the default timezone offset.
    pub fn utc(name: Vec<u8>, email: Vec<u8>, date_seconds: Vec<u8>) -> (r: Identity)
        ensures
            r.name@ == name@,
            r.email@ == email@,
            r.date_seconds@ == date_seconds@,
            r.tz@ == default_tz(),
    {
        Identity { name, email, date_seconds, tz: default_tz_bytes() }
    }
}

/// The first header line: `tree `, the tree digest in hexadecimal, `\n`.
pub open spec fn tree_line(tree_digest: Seq<u8>) -> Seq<u8> {
    seq![116u8, 114u8, 101u8, 101u8, 32u8] + hex_ascii(tree_digest) + seq![10u8]
}

/// One parent header line: `parent `, the parent digest in hexadecimal,
/// `\n`.
pub open spec fn parent_line(parent_digest: Seq<u8>) -> Seq<u8> {
    seq![112u8, 97u8, 114u8, 101u8, 110u8, 116u8, 32u8] + hex_ascii(parent_digest) + seq![10u8]
}

/// The parent header lines, one per parent, in the given order.
pub open spec fn parent_lines(ps: Seq<Digest>) -> Seq<u8>
    decreases ps.len(),
{
    if ps.len() == 0 {
        Seq::empty()
    } else {
        parent_lines(ps.drop_last()) + parent_line(ps.last().bytes())
    }
}

/// One authorship header line:
/// `<role> <name> <<email>> <date_seconds> <tz>\n`.
pub open spec fn author_line(a: Authorship) -> Seq<u8> {
    a.role@ + seq![32u8] + a.identity.name@ + seq![32u8, 60u8] + a.identity.email@ + seq![
        62u8,
        32u8,
    ] + a.identity.date_seconds@ + seq![32u8] + a.identity.tz@ + seq![10u8]
}

/// The authorship header lines, in the given order.
pub open spec fn author_lines(auths: Seq<Authorship>) -> Seq<u8>
    decreases auths.len(),
{
    if auths.len() == 0 {
        Seq::empty()
    } else {
        author_lines(auths.drop_last()) + author_line(auths.last())
    }
}

/// The payload of a commit object: the tree line, the parent lines, the
/// authorship lines, one blank line, then the message bytes verbatim --
/// including any trailing newline the caller supplied.
pub open spec fn commit_payload(
    tree: Digest,
    parents: Seq<Digest>,
    auths: Seq<Authorship>,
    message: Seq<u8>,
) -> Seq<u8> {
    tree_line(tree.bytes()) + parent_lines(parents) + author_lines(auths) + seq![10u8] + message
}

/// Law: a commit with no parents has no parent line at all.
pub proof fn lemma_parent_lines_empty()
    ensures
        parent_lines(Seq::empty()) == Seq::<u8>::empty(),
{
}

/// Law: each further parent appends exactly its own line, so a commit
/// emits one parent line per parent, in the given order.
pub proof fn lemma_parent_lines_push(ps: Seq<Digest>, p: Digest)
    ensures
        parent_lines(ps.push(p)) == parent_lines(ps) + parent_line(p.bytes()),
{
    assert(ps.push(p).drop_last() =~= ps);
    assert(ps.push(p).last() == p);
}

/// Law: a commit with two parents emits exactly the two parent lines, in
/// the given order.
pub proof fn lemma_parent_lines_pair(p1: Digest, p2: Digest)
    ensures
        parent_lines(seq![p1, p2]) == parent_line(p1.bytes()) + parent_line(p2.bytes()),
{
    let s0 = Seq::<Digest>::empty();
    lemma_parent_lines_empty();
    lemma_parent_lines_push(s0, p1);
    lemma_parent_lines_push(s0.push(p1), p2);
    assert(s0.push(p1).push(p2) =~= seq![p1, p2]);
    assert(Seq::<u8>::empty() + parent_line(p1.bytes()) =~= parent_line(p1.bytes()));
}

/// Taking one more parent extends the lines by that parent's line.
proof fn lemma_parent_lines_step(ps: Seq<Digest>, i: int)
    requires
        0 <= i < ps.len(),
    ensures
        parent_lines(ps.take(i + 1)) == parent_lines(ps.take(i)) + parent_line(ps[i].bytes()),
{
    assert(ps.take(i + 1).drop_last() =~= ps.take(i));
    assert(ps.take(i + 1).last() == ps[i]);
}

/// Taking one more record extends the lines by that record's line.
proof fn lemma_author_lines_step(auths: Seq<Authorship>, i: int)
    requires
        0 <= i < auths.len(),
    ensures
        author_lines(auths.take(i + 1)) == author_lines(auths.take(i)) + author_line(auths[i]),
{
    assert(auths.take(i + 1).drop_last() =~= auths.take(i));
    assert(auths.take(i + 1).last() == auths[i]);
}

/// Prepares a commit object for storage. Everything is framed exactly as
/// given, in the fixed header order; the message is arbitrary bytes and is
/// not validated, so the call cannot fail.
pub fn encode_commit(
    tree: &Digest,
    parents: &Vec<Digest>,
    authorship: &Vec<Authorship>,
    message: &Vec<u8>,
) -> (r: StoredObject)
    requires
        object_bytes(
            tag_of(ObjectType::Commit),
            commit_payload(*tree, parents@, authorship@, message@),
        ).len() <= usize::MAX,
    ensures
        r.digest.bytes() == digest_of(
            tag_of(ObjectType::Commit),
            commit_payload(*tree, parents@, authorship@, message@),
        ),
        r.compressed@ == deflate_of(
            object_bytes(
                tag_of(ObjectType::Commit),
                commit_payload(*tree, parents@, authorship@, message@),
            ),
        ),
{
    let mut buf: Vec<u8> = Vec::new();
    buf.push(116);
    buf.push(114);
    buf.push(101);
    buf.push(101);
    buf.push(32);
    append_bytes(&mut buf, tree.hex());
    buf.push(10);
    proof {
        assert(buf@ =~= tree_line(tree.bytes()));
        assert(parent_lines(parents@.take(0)) =~= Seq::<u8>::empty());
        assert(buf@ =~= tree_line(tree.bytes()) + parent_lines(parents@.take(0)));
    }
    let mut i: usize = 0;
    while i < parents.len()
        invariant
            i <= parents@.len(),
            buf@ == tree_line(tree.bytes()) + parent_lines(parents@.take(i as int)),
        decreases parents@.len() - i,
    {
        buf.push(112);
        buf.push(97);
        buf.push(114);
        buf.push(101);
        buf.push(110);
        buf.push(116);
        buf.push(32);
        append_bytes(&mut buf, parents[i].hex());
        buf.push(10);
        proof {
            lemma_parent_lines_step(parents@, i as int);
            assert(buf@ =~= tree_line(tree.bytes()) + parent_lines(parents@.take(i as int + 1)));
        }
        i += 1;
    }
    proof {
        assert(parents@.take(parents@.len() as int) =~= parents@);
        assert(author_lines(authorship@.take(0)) =~= Seq::<u8>::empty());
        assert(buf@ =~= tree_line(tree.bytes()) + parent_lines(parents@) + author_lines(
            authorship@.take(0),
        ));
    }
    let mut k: usize = 0;
    while k < authorship.len()
        invariant
            k <= authorship@.len(),
            buf@ == tree_line(tree.bytes()) + parent_lines(parents@) + author_lines(
                authorship@.take(k as int),
            ),
        decreases authorship@.len() - k,
    {
        append_bytes(&mut buf, &authorship[k].role);
        buf.push(32);
        append_bytes(&mut buf, &authorship[k].identity.name);
        buf.push(32);
        buf.push(60);
        append_bytes(&mut buf, &authorship[k].identity.email);
        buf.push(62);
        buf.push(32);
        append_bytes(&mut buf, &authorship[k].identity.date_seconds);
        buf.push(32);
        append_bytes(&mut buf, &authorship[k].identity.tz);
        buf.push(10);
        proof {
            lemma_author_lines_step(authorship@, k as int);
            assert(buf@ =~= tree_line(tree.bytes()) + parent_lines(parents@) + author_lines(
                authorship@.take(k as int + 1),
            ));
        }
        k += 1;
    }
    buf.push(10);
    append_bytes(&mut buf, message);
    proof {
        assert(authorship@.take(authorship@.len() as int) =~= authorship@);
        assert(buf@ =~= commit_payload(*tree, parents@, authorship@, message@));
    }
    let mut fragments: Vec<Vec<u8>> = Vec::new();
    fragments.push(buf);
    proof {
        assert(fragments@.drop_last() =~= Seq::<Vec<u8>>::empty());
        assert(concat_of(Seq::<Vec<u8>>::empty()) =~= Seq::<u8>::empty());
        assert(concat_of(fragments@) =~= commit_payload(*tree, parents@, authorship@, message@));
    }
    store_object(ObjectType::Commit, &fragments)
}

} // verus!
