//! The byte grammars of the store: the `<tag> NUL <content>` envelope,
//! newline-separated lines, tree entry lines `<kind> <oid> <name>`, and
//! the commit text `tree ...`/`parent ...`/message layout.
use vstd::prelude::*;

use crate::bytes::{append_bytes, bytes_clone, is_prefix_of, lemma_views_of_push, subvec, views_of};
use crate::data::DataType;

verus! {

/// The byte that separates the kind tag from the content in a stored
/// object.
pub const DELIMITER: u8 = 0;

/// The tag under which each kind is written.
pub open spec fn tag_of(k: DataType) -> Seq<u8> {
    match k {
        DataType::Any => seq![78, 111, 110, 101],
        DataType::Blob => seq![66, 108, 111, 98],
        DataType::Tree => seq![84, 114, 101, 101],
        DataType::Commit => seq![67, 111, 109, 109, 105, 116],
    }
}

/// No tag contains the delimiter, a space or a newline.
pub proof fn lemma_tag_bytes(k: DataType)
    ensures
        forall|j: int| 0 <= j < tag_of(k).len() ==> tag_of(k)[j] != 0,
        forall|j: int| 0 <= j < tag_of(k).len() ==> tag_of(k)[j] != 32,
        forall|j: int| 0 <= j < tag_of(k).len() ==> tag_of(k)[j] != 10,
        tag_of(k).len() > 0,
{
}

/// Tags of different kinds differ.
pub proof fn lemma_tag_injective(k1: DataType, k2: DataType)
    requires
        tag_of(k1) == tag_of(k2),
    ensures
        k1 == k2,
{
    if k1 != k2 {
        assert(tag_of(k1)[0] != tag_of(k2)[0] || tag_of(k1)[1] != tag_of(k2)[1] || tag_of(k1).len()
            != tag_of(k2).len());
    }
}

pub fn tag_bytes(k: DataType) -> (r: Vec<u8>)
    ensures
        r@ == tag_of(k),
{
    let mut r: Vec<u8> = Vec::new();
    match k {
        DataType::Any => {
            r.push(78);
            r.push(111);
            r.push(110);
            r.push(101);
        },
        DataType::Blob => {
            r.push(66);
            r.push(108);
            r.push(111);
            r.push(98);
        },
        DataType::Tree => {
            r.push(84);
            r.push(114);
            r.push(101);
            r.push(101);
        },
        DataType::Commit => {
            r.push(67);
            r.push(111);
            r.push(109);
            r.push(109);
            r.push(105);
            r.push(116);
        },
    }
    proof {
        assert(r@ =~= tag_of(k));
    }
    r
}

/// The kind a tag names; an unknown tag reads as the wildcard.
pub open spec fn kind_of_tag(t: Seq<u8>) -> DataType {
    if t == tag_of(DataType::Blob) {
        DataType::Blob
    } else if t == tag_of(DataType::Tree) {
        DataType::Tree
    } else if t == tag_of(DataType::Commit) {
        DataType::Commit
    } else {
        DataType::Any
    }
}

pub fn kind_from_tag(t: &Vec<u8>) -> (r: DataType)
    ensures
        r == kind_of_tag(t@),
{
    let blob = tag_bytes(DataType::Blob);
    let tree = tag_bytes(DataType::Tree);
    let commit = tag_bytes(DataType::Commit);
    if crate::bytes::bytes_eq(t, &blob) {
        DataType::Blob
    } else if crate::bytes::bytes_eq(t, &tree) {
        DataType::Tree
    } else if crate::bytes::bytes_eq(t, &commit) {
        DataType::Commit
    } else {
        DataType::Any
    }
}

/// The stored form of an object: tag, delimiter, then the raw content.
pub open spec fn envelope(k: DataType, c: Seq<u8>) -> Seq<u8> {
    tag_of(k) + seq![0u8] + c
}

pub fn make_envelope(k: DataType, c: &Vec<u8>) -> (r: Vec<u8>)
    ensures
        r@ == envelope(k, c@),
{
    let mut r = tag_bytes(k);
    r.push(DELIMITER);
    append_bytes(&mut r, c);
    proof {
        assert(r@ =~= envelope(k, c@));
    }
    r
}

/// The position of the first occurrence of `b` in `s`, if any.
pub open spec fn first_pos(s: Seq<u8>, b: u8) -> Option<int>
    decreases s.len(),
{
    if s.len() == 0 {
        Option::None
    } else if s[0] == b {
        Option::Some(0)
    } else {
        match first_pos(s.skip(1), b) {
            Option::Some(i) => Option::Some(i + 1),
            Option::None => Option::None,
        }
    }
}

/// What `first_pos` returns, spelled out.
pub proof fn lemma_first_pos(s: Seq<u8>, b: u8)
    ensures
        match first_pos(s, b) {
            Option::Some(i) => 0 <= i < s.len() && s[i] == b && forall|j: int|
                0 <= j < i ==> s[j] != b,
            Option::None => forall|j: int| 0 <= j < s.len() ==> s[j] != b,
        },
    decreases s.len(),
{
    if s.len() == 0 {
    } else if s[0] == b {
    } else {
        lemma_first_pos(s.skip(1), b);
        match first_pos(s.skip(1), b) {
            Option::Some(i) => {
                assert forall|j: int| 0 <= j < i + 1 implies s[j] != b by {
                    if j > 0 {
                        assert(s.skip(1)[j - 1] == s[j]);
                    }
                }
            },
            Option::None => {
                assert forall|j: int| 0 <= j < s.len() implies s[j] != b by {
                    if j > 0 {
                        assert(s.skip(1)[j - 1] == s[j]);
                    }
                }
            },
        }
    }
}

/// Conversely, the properties pin `first_pos` down.
pub proof fn lemma_first_pos_unique(s: Seq<u8>, b: u8, i: int)
    requires
        0 <= i < s.len(),
        s[i] == b,
        forall|j: int| 0 <= j < i ==> s[j] != b,
    ensures
        first_pos(s, b) == Option::Some(i),
{
    lemma_first_pos(s, b);
    match first_pos(s, b) {
        Option::Some(p) => {
            if p < i {
            } else if p > i {
            }
        },
        Option::None => {},
    }
}

/// Find the first occurrence of `b` in `s` at or after `from`.
pub fn find_byte(s: &Vec<u8>, from: usize, b: u8) -> (r: Option<usize>)
    requires
        from <= s@.len(),
    ensures
        match r {
            Option::Some(i) => from <= i < s@.len() && s@[i as int] == b && forall|j: int|
                from <= j < i ==> s@[j] != b,
            Option::None => forall|j: int| from <= j < s@.len() ==> s@[j] != b,
        },
{
    let n = s.len();
    let mut i: usize = from;
    while i < n
        invariant
            from <= i <= n,
            n == s@.len(),
            forall|j: int| from <= j < i ==> s@[j] != b,
        decreases n - i,
    {
        if s[i] == b {
            return Option::Some(i);
        }
        i += 1;
    }
    Option::None
}

/// The tag part of a stored envelope: everything before the first
/// delimiter, or the whole sequence when there is none.
pub open spec fn env_kind(s: Seq<u8>) -> Seq<u8> {
    match first_pos(s, 0) {
        Option::Some(i) => s.take(i),
        Option::None => s,
    }
}

/// The content part of a stored envelope: everything after the first
/// delimiter, or empty when there is none.
pub open spec fn env_content(s: Seq<u8>) -> Seq<u8> {
    match first_pos(s, 0) {
        Option::Some(i) => s.subrange(i + 1, s.len() as int),
        Option::None => Seq::empty(),
    }
}

/// Reading an envelope back gives the tag and content it was built from.
pub proof fn lemma_envelope_round_trip(k: DataType, c: Seq<u8>)
    ensures
        env_kind(envelope(k, c)) == tag_of(k),
        env_content(envelope(k, c)) == c,
{
    let s = envelope(k, c);
    let t = tag_of(k);
    lemma_tag_bytes(k);
    assert(s[t.len() as int] == 0);
    assert forall|j: int| 0 <= j < t.len() implies s[j] != 0 by {
        assert(s[j] == t[j]);
    }
    lemma_first_pos_unique(s, 0, t.len() as int);
    assert(env_kind(s) =~= t);
    assert(env_content(s) =~= c);
}

/// Split a stored envelope into its tag and its content.
pub fn split_envelope(s: &Vec<u8>) -> (r: (Vec<u8>, Vec<u8>))
    ensures
        r.0@ == env_kind(s@),
        r.1@ == env_content(s@),
{
    match find_byte(s, 0, DELIMITER) {
        Option::Some(i) => {
            proof {
                lemma_first_pos_unique(s@, 0, i as int);
            }
            let n = s.len();
            let tag = subvec(s, 0, i);
            let content = subvec(s, i + 1, n);
            proof {
                assert(tag@ =~= env_kind(s@));
            }
            (tag, content)
        },
        Option::None => {
            proof {
                lemma_first_pos(s@, 0);
                match first_pos(s@, 0) {
                    Option::Some(p) => {
                        assert(s@[p] != 0);
                    },
                    Option::None => {},
                }
            }
            let tag = bytes_clone(s);
            (tag, Vec::new())
        },
    }
}

/// The lines of a byte text, split on newlines; a trailing newline
/// yields no empty final line.
pub open spec fn lines_of(s: Seq<u8>) -> Seq<Seq<u8>>
    decreases s.len(),
{
    if s.len() == 0 {
        Seq::empty()
    } else {
        match first_pos(s, 10) {
            Option::Some(i) => if 0 <= i < s.len() {
                seq![s.take(i)] + lines_of(s.skip(i + 1))
            } else {
                seq![s]
            },
            Option::None => seq![s],
        }
    }
}

/// Split a byte text into lines.
pub fn split_lines(s: &Vec<u8>) -> (r: Vec<Vec<u8>>)
    ensures
        views_of(r@) == lines_of(s@),
{
    let n = s.len();
    let mut r: Vec<Vec<u8>> = Vec::new();
    let mut start: usize = 0;
    proof {
        assert(views_of(r@) =~= Seq::<Seq<u8>>::empty());
        assert(s@.skip(0) =~= s@);
        assert(views_of(r@) + lines_of(s@.skip(0)) =~= lines_of(s@));
    }
    while start < n
        invariant
            start <= n,
            n == s@.len(),
            lines_of(s@) == views_of(r@) + lines_of(s@.skip(start as int)),
        decreases n - start,
    {
        let ghost rest = s@.skip(start as int);
        match find_byte(s, start, 10) {
            Option::Some(i) => {
                let line = subvec(s, start, i);
                let ghost prev_vec = r@;
                let ghost prev = views_of(r@);
                r.push(line);
                proof {
                    assert forall|j: int| 0 <= j < i - start implies rest[j] != 10 by {
                        assert(rest[j] == s@[start + j]);
                    }
                    assert(rest[i - start] == s@[i as int]);
                    lemma_first_pos_unique(rest, 10, i - start);
                    assert(rest.take(i - start) =~= line@);
                    assert(rest.skip(i - start + 1) =~= s@.skip(i + 1));
                    assert(lines_of(rest) == seq![line@] + lines_of(s@.skip(i + 1)));
                    lemma_views_of_push(prev_vec, line);
                    assert(views_of(r@) =~= prev + seq![line@]);
                }
                let next = i + 1;
                proof {
                    assert(views_of(r@) + lines_of(s@.skip(next as int)) =~= lines_of(s@));
                }
                start = next;
            },
            Option::None => {
                let line = subvec(s, start, n);
                let ghost prev_vec = r@;
                let ghost prev = views_of(r@);
                r.push(line);
                proof {
                    assert forall|j: int| 0 <= j < rest.len() implies rest[j] != 10 by {
                        assert(rest[j] == s@[start + j]);
                    }
                    lemma_first_pos(rest, 10);
                    match first_pos(rest, 10) {
                        Option::Some(p) => {
                            assert(rest[p] != 10);
                        },
                        Option::None => {},
                    }
                    assert(rest =~= line@);
                    assert(lines_of(rest) == seq![line@]);
                    lemma_views_of_push(prev_vec, line);
                    assert(views_of(r@) =~= prev + seq![line@]);
                    assert(s@.skip(n as int) =~= Seq::<u8>::empty());
                    assert(views_of(r@) + lines_of(s@.skip(n as int)) =~= lines_of(s@));
                }
                start = n;
            },
        }
    }
    proof {
        assert(s@.skip(n as int) =~= Seq::<u8>::empty());
        assert(views_of(r@) + lines_of(s@.skip(n as int)) =~= views_of(r@));
    }
    r
}

/// One serialised tree entry: `<tag> <oid> <name>`.
pub open spec fn tree_line(k: DataType, oid: Seq<u8>, name: Seq<u8>) -> Seq<u8> {
    tag_of(k) + seq![32u8] + oid + seq![32u8] + name
}

/// The serialised form of a tree: one entry per line.
pub open spec fn tree_text(ents: Seq<(DataType, Seq<u8>, Seq<u8>)>) -> Seq<u8>
    decreases ents.len(),
{
    if ents.len() == 0 {
        Seq::empty()
    } else {
        tree_line(ents[0].0, ents[0].1, ents[0].2) + seq![10u8] + tree_text(ents.skip(1))
    }
}

/// Split a tree entry line into its three fields, as the first two
/// spaces dictate; missing fields read as empty.
pub open spec fn parse_tree_line(l: Seq<u8>) -> (Seq<u8>, Seq<u8>, Seq<u8>) {
    match first_pos(l, 32) {
        Option::None => (l, Seq::empty(), Seq::empty()),
        Option::Some(i) => if 0 <= i < l.len() {
            let rest = l.skip(i + 1);
            match first_pos(rest, 32) {
                Option::None => (l.take(i), rest, Seq::empty()),
                Option::Some(j) => if 0 <= j < rest.len() {
                    (l.take(i), rest.take(j), rest.skip(j + 1))
                } else {
                    (l.take(i), rest, Seq::empty())
                },
            }
        } else {
            (l, Seq::empty(), Seq::empty())
        },
    }
}

/// Parsing a serialised entry line recovers its fields, provided the
/// object id holds no space; the name may hold spaces.
pub proof fn lemma_tree_line_round_trip(k: DataType, oid: Seq<u8>, name: Seq<u8>)
    requires
        forall|j: int| 0 <= j < oid.len() ==> oid[j] != 32,
    ensures
        parse_tree_line(tree_line(k, oid, name)) == (tag_of(k), oid, name),
{
    let t = tag_of(k);
    let l = tree_line(k, oid, name);
    lemma_tag_bytes(k);
    assert(l[t.len() as int] == 32);
    assert forall|j: int| 0 <= j < t.len() implies l[j] != 32 by {
        assert(l[j] == t[j]);
    }
    lemma_first_pos_unique(l, 32, t.len() as int);
    let rest = l.skip(t.len() as int + 1);
    assert(rest =~= oid + seq![32u8] + name);
    assert(rest[oid.len() as int] == 32);
    assert forall|j: int| 0 <= j < oid.len() implies rest[j] != 32 by {
        assert(rest[j] == oid[j]);
    }
    lemma_first_pos_unique(rest, 32, oid.len() as int);
    assert(l.take(t.len() as int) =~= t);
    assert(rest.take(oid.len() as int) =~= oid);
    assert(rest.skip(oid.len() as int + 1) =~= name);
}

/// Split an entry line into its three fields.
pub fn split_tree_line(l: &Vec<u8>) -> (r: (Vec<u8>, Vec<u8>, Vec<u8>))
    ensures
        (r.0@, r.1@, r.2@) == parse_tree_line(l@),
{
    let n = l.len();
    match find_byte(l, 0, 32) {
        Option::None => {
            proof {
                lemma_first_pos(l@, 32);
                match first_pos(l@, 32) {
                    Option::Some(p) => {
                        assert(l@[p] != 32);
                    },
                    Option::None => {},
                }
            }
            (bytes_clone(l), Vec::new(), Vec::new())
        },
        Option::Some(i) => {
            proof {
                lemma_first_pos_unique(l@, 32, i as int);
            }
            let first = subvec(l, 0, i);
            let ghost rest = l@.skip(i + 1);
            proof {
                assert(first@ =~= l@.take(i as int));
            }
            match find_byte(l, i + 1, 32) {
                Option::None => {
                    proof {
                        assert forall|j: int| 0 <= j < rest.len() implies rest[j] != 32 by {
                            assert(rest[j] == l@[i + 1 + j]);
                        }
                        lemma_first_pos(rest, 32);
                        match first_pos(rest, 32) {
                            Option::Some(p) => {
                                assert(rest[p] != 32);
                            },
                            Option::None => {},
                        }
                    }
                    let second = subvec(l, i + 1, n);
                    proof {
                        assert(second@ =~= rest);
                    }
                    (first, second, Vec::new())
                },
                Option::Some(j) => {
                    proof {
                        assert forall|q: int| 0 <= q < j - i - 1 implies rest[q] != 32 by {
                            assert(rest[q] == l@[i + 1 + q]);
                        }
                        assert(rest[j - i - 1] == l@[j as int]);
                        lemma_first_pos_unique(rest, 32, j - i - 1);
                    }
                    let second = subvec(l, i + 1, j);
                    let third = subvec(l, j + 1, n);
                    proof {
                        assert(second@ =~= rest.take(j - i - 1));
                        assert(third@ =~= rest.skip(j - i));
                    }
                    (first, second, third)
                },
            }
        },
    }
}

/// The prefix of a commit's tree line.
pub open spec fn tree_prefix() -> Seq<u8> {
    seq![116u8, 114u8, 101u8, 101u8, 32u8]  // "tree "
}

/// The prefix of a commit's parent lines.
pub open spec fn parent_prefix() -> Seq<u8> {
    seq![112u8, 97u8, 114u8, 101u8, 110u8, 116u8, 32u8]  // "parent "
}

pub fn tree_prefix_vec() -> (r: Vec<u8>)
    ensures
        r@ == tree_prefix(),
{
    let mut r: Vec<u8> = Vec::new();
    r.push(116);
    r.push(114);
    r.push(101);
    r.push(101);
    r.push(32);
    proof {
        assert(r@ =~= tree_prefix());
    }
    r
}

pub fn parent_prefix_vec() -> (r: Vec<u8>)
    ensures
        r@ == parent_prefix(),
{
    let mut r: Vec<u8> = Vec::new();
    r.push(112);
    r.push(97);
    r.push(114);
    r.push(101);
    r.push(110);
    r.push(116);
    r.push(32);
    proof {
        assert(r@ =~= parent_prefix());
    }
    r
}

/// The text of a commit object: the tree line, one parent line per
/// recorded parent with a bare newline standing in for an absent one,
/// a blank separator line, then the message.
pub open spec fn commit_text(
    tree: Seq<u8>,
    head: Option<Seq<u8>>,
    merge: Option<Seq<u8>>,
    msg: Seq<u8>,
) -> Seq<u8> {
    tree_prefix() + tree + seq![10u8] + (match head {
        Option::Some(h) => parent_prefix() + h + seq![10u8],
        Option::None => seq![10u8],
    }) + (match merge {
        Option::Some(m) => parent_prefix() + m + seq![10u8],
        Option::None => seq![10u8],
    }) + seq![10u8] + msg + seq![10u8]
}

/// How many consecutive lines starting at `i` carry the parent prefix.
pub open spec fn parent_run(lines: Seq<Seq<u8>>, i: int) -> int
    decreases lines.len() - i,
{
    if 0 <= i < lines.len() && is_prefix_of(parent_prefix(), lines[i]) {
        1 + parent_run(lines, i + 1)
    } else {
        0
    }
}

/// All the lines of `ls` joined back to back.
pub open spec fn concat_all(ls: Seq<Seq<u8>>) -> Seq<u8>
    decreases ls.len(),
{
    if ls.len() == 0 {
        Seq::empty()
    } else {
        ls[0] + concat_all(ls.skip(1))
    }
}

/// What a commit object's text means: its tree id, its parent ids in
/// order, and its message, read line by line.
pub open spec fn parse_commit(content: Seq<u8>) -> (Option<Seq<u8>>, Seq<Seq<u8>>, Seq<u8>) {
    let lines = lines_of(content);
    let tree = if lines.len() > 0 && is_prefix_of(tree_prefix(), lines[0]) {
        Option::Some(lines[0].skip(tree_prefix().len() as int))
    } else {
        Option::None
    };
    let k = parent_run(lines, 1);
    let parents = Seq::new(k as nat, |j: int| lines[1 + j].skip(parent_prefix().len() as int));
    let start = if 2 + k <= lines.len() {
        2 + k
    } else {
        lines.len() as int
    };
    let msg = concat_all(lines.skip(start));
    (tree, parents, msg)
}

/// Splitting a text made of a clean line and a rest at the first
/// newline gives that line back.
pub proof fn lemma_lines_of_line(a: Seq<u8>, rest: Seq<u8>)
    requires
        forall|j: int| 0 <= j < a.len() ==> a[j] != 10,
    ensures
        lines_of(a + seq![10u8] + rest) == seq![a] + lines_of(rest),
{
    let s = a + seq![10u8] + rest;
    assert(s[a.len() as int] == 10);
    assert forall|j: int| 0 <= j < a.len() implies s[j] != 10 by {
        assert(s[j] == a[j]);
    }
    lemma_first_pos_unique(s, 10, a.len() as int);
    assert(s.take(a.len() as int) =~= a);
    assert(s.skip(a.len() as int + 1) =~= rest);
}


/// Joining a message line behind blank lines gives the message back.
proof fn lemma_concat_msg(msg: Seq<u8>)
    ensures
        concat_all(seq![msg]) == msg,
        concat_all(seq![Seq::<u8>::empty(), msg]) == msg,
        concat_all(seq![Seq::<u8>::empty(), Seq::<u8>::empty(), msg]) == msg,
{
    let e = Seq::<u8>::empty();
    assert(concat_all(Seq::<Seq<u8>>::empty()) == Seq::<u8>::empty());
    assert(seq![msg].skip(1) =~= Seq::<Seq<u8>>::empty());
    assert(concat_all(seq![msg]) =~= msg);
    assert(seq![e, msg].skip(1) =~= seq![msg]);
    assert(concat_all(seq![e, msg]) =~= msg);
    assert(seq![e, e, msg].skip(1) =~= seq![e, msg]);
    assert(concat_all(seq![e, e, msg]) =~= msg);
}

/// A commit's text parses back to the pieces it was built from. The
/// ids and the message must be newline-free, and a merge parent only
/// ever appears beside a first parent.
pub proof fn lemma_commit_round_trip(
    tree: Seq<u8>,
    head: Option<Seq<u8>>,
    merge: Option<Seq<u8>>,
    msg: Seq<u8>,
)
    requires
        forall|j: int| 0 <= j < tree.len() ==> tree[j] != 10,
        head matches Option::Some(h) ==> forall|j: int| 0 <= j < h.len() ==> h[j] != 10,
        merge matches Option::Some(m) ==> forall|j: int| 0 <= j < m.len() ==> m[j] != 10,
        forall|j: int| 0 <= j < msg.len() ==> msg[j] != 10,
        merge is Some ==> head is Some,
    ensures
        parse_commit(commit_text(tree, head, merge, msg)) == (
            Option::Some(tree),
            (match (head, merge) {
                (Option::Some(h), Option::Some(m)) => seq![h, m],
                (Option::Some(h), Option::None) => seq![h],
                _ => Seq::<Seq<u8>>::empty(),
            }),
            msg,
        ),
{
    let text = commit_text(tree, head, merge, msg);
    let tline = tree_prefix() + tree;
    let hpart: Seq<u8> = match head {
        Option::Some(h) => parent_prefix() + h + seq![10u8],
        Option::None => seq![10u8],
    };
    let mpart: Seq<u8> = match merge {
        Option::Some(m) => parent_prefix() + m + seq![10u8],
        Option::None => seq![10u8],
    };
    let tail = seq![10u8] + msg + seq![10u8];
    // peel the tree line
    let rest1 = hpart + mpart + tail;
    assert(text =~= tline + seq![10u8] + rest1);
    lemma_lines_of_line(tline, rest1);
    // peel the two parent slots
    let rest3 = seq![] + tail;
    assert(rest3 =~= tail);
    let lines_tail = lines_of(tail);
    assert(tail =~= Seq::<u8>::empty() + seq![10u8] + (msg + seq![10u8]));
    lemma_lines_of_line(Seq::<u8>::empty(), msg + seq![10u8]);
    assert(msg + seq![10u8] =~= msg + seq![10u8] + Seq::<u8>::empty());
    lemma_lines_of_line(msg, Seq::<u8>::empty());
    assert(lines_of(Seq::<u8>::empty()) =~= Seq::<Seq<u8>>::empty());
    assert(lines_of(msg + seq![10u8]) =~= seq![msg]);
    assert(lines_tail =~= seq![Seq::<u8>::empty(), msg]);
    let lines = lines_of(text);
    assert(is_prefix_of(tree_prefix(), tline)) by {
        assert(tline.subrange(0, tree_prefix().len() as int) =~= tree_prefix());
    }
    assert(tline.skip(tree_prefix().len() as int) =~= tree);
    // the blank separator line carries no parent prefix
    assert(!is_prefix_of(parent_prefix(), Seq::<u8>::empty()));
    match (head, merge) {
        (Option::Some(h), Option::Some(m)) => {
            let hline = parent_prefix() + h;
            let mline = parent_prefix() + m;
            assert(rest1 =~= hline + seq![10u8] + (mline + seq![10u8] + tail));
            lemma_lines_of_line(hline, mline + seq![10u8] + tail);
            assert(mline + seq![10u8] + tail =~= mline + seq![10u8] + tail);
            lemma_lines_of_line(mline, tail);
            assert(lines =~= seq![tline, hline, mline, Seq::<u8>::empty(), msg]);
            assert(is_prefix_of(parent_prefix(), hline)) by {
                assert(hline.subrange(0, parent_prefix().len() as int) =~= parent_prefix());
            }
            assert(is_prefix_of(parent_prefix(), mline)) by {
                assert(mline.subrange(0, parent_prefix().len() as int) =~= parent_prefix());
            }
            assert(parent_run(lines, 3) == 0);
            assert(parent_run(lines, 2) == 1);
            assert(parent_run(lines, 1) == 2);
            assert(hline.skip(parent_prefix().len() as int) =~= h);
            assert(mline.skip(parent_prefix().len() as int) =~= m);
            assert(Seq::new(2nat, |j: int| lines[1 + j].skip(parent_prefix().len() as int)) =~=
                seq![h, m]);
            assert(lines.skip(4) =~= seq![msg]);
            lemma_concat_msg(msg);
        },
        (Option::Some(h), Option::None) => {
            let hline = parent_prefix() + h;
            assert(rest1 =~= hline + seq![10u8] + (seq![10u8] + tail));
            lemma_lines_of_line(hline, seq![10u8] + tail);
            assert(seq![10u8] + tail =~= Seq::<u8>::empty() + seq![10u8] + tail);
            lemma_lines_of_line(Seq::<u8>::empty(), tail);
            assert(lines =~= seq![tline, hline, Seq::<u8>::empty(), Seq::<u8>::empty(), msg]);
            assert(is_prefix_of(parent_prefix(), hline)) by {
                assert(hline.subrange(0, parent_prefix().len() as int) =~= parent_prefix());
            }
            assert(parent_run(lines, 2) == 0);
            assert(parent_run(lines, 1) == 1);
            assert(hline.skip(parent_prefix().len() as int) =~= h);
            assert(Seq::new(1nat, |j: int| lines[1 + j].skip(parent_prefix().len() as int)) =~=
                seq![h]);
            assert(lines.skip(3) =~= seq![Seq::<u8>::empty(), msg]);
            lemma_concat_msg(msg);
        },
        (Option::None, _) => {
            assert(rest1 =~= Seq::<u8>::empty() + seq![10u8] + (seq![10u8] + tail));
            lemma_lines_of_line(Seq::<u8>::empty(), seq![10u8] + tail);
            assert(seq![10u8] + tail =~= Seq::<u8>::empty() + seq![10u8] + tail);
            lemma_lines_of_line(Seq::<u8>::empty(), tail);
            assert(lines =~= seq![tline, Seq::<u8>::empty(), Seq::<u8>::empty(), Seq::<u8>::empty(),
                msg]);
            assert(parent_run(lines, 1) == 0);
            assert(Seq::new(0nat, |j: int| lines[1 + j].skip(parent_prefix().len() as int)) =~=
                Seq::<Seq<u8>>::empty());
            assert(lines.skip(2) =~= seq![Seq::<u8>::empty(), Seq::<u8>::empty(), msg]);
            lemma_concat_msg(msg);
        },
    }
}

} // verus!
