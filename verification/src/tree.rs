//! Building tree objects from the staged index and reading them back.
//! The index is reshaped into a nested directory value, hashed bottom
//! up into the store, and the written trees expand back to the index.
use vstd::prelude::*;

use crate::base::{digest_injective, flatten_entries, flatten_tree, join_path};
use crate::bytes::{append_bytes, bytes_clone, is_prefix_of, lemma_prefix_trans, lex_lt};
use crate::codec::{envelope, kind_of_tag, lines_of, parse_tree_line, tag_of, tree_line, tree_text};
use crate::data::{DataType, DateErr, Ugit};
use crate::digest::{hex_str, sha1_of};

verus! {

/// A directory tree under construction: a file holds its blob id, a
/// directory its entries sorted by name.
pub enum Node {
    File(Vec<u8>),
    Dir(Vec<(Vec<u8>, Node)>),
}

/// The flat path-to-blob mapping a node stands for.
pub open spec fn node_flat(n: Node, path: Seq<u8>) -> Map<Seq<u8>, Seq<u8>>
    decreases n,
{
    match n {
        Node::File(oid) => Map::empty().insert(path, oid@),
        Node::Dir(es) => dir_flat(es@, path),
    }
}

/// The flat mapping of a directory's entries, later entries winning
/// (they never overlap in a well-formed directory).
pub open spec fn dir_flat(es: Seq<(Vec<u8>, Node)>, base: Seq<u8>) -> Map<Seq<u8>, Seq<u8>>
    decreases es,
{
    if es.len() == 0 {
        Map::empty()
    } else {
        node_flat(es[0].1, join_path(base, es[0].0@)).union_prefer_right(dir_flat(es.skip(1), base))
    }
}

/// Entries are sorted strictly by name, recursively.
pub open spec fn node_wf(n: Node) -> bool
    decreases n,
{
    match n {
        Node::File(_) => true,
        Node::Dir(es) => dir_wf(es@),
    }
}

pub open spec fn dir_wf(es: Seq<(Vec<u8>, Node)>) -> bool
    decreases es,
{
    if es.len() == 0 {
        true
    } else {
        node_wf(es[0].1) && dir_wf(es.skip(1)) && (forall|j: int|
            1 <= j < es.len() ==> lex_lt(es[0].0@, (#[trigger] es[j]).0@))
    }
}

/// Every directory node below has at least one entry, so every
/// represented directory is recoverable from the flat mapping.
pub open spec fn node_filled(n: Node) -> bool
    decreases n,
{
    match n {
        Node::File(_) => true,
        Node::Dir(es) => es@.len() > 0 && dir_filled(es@),
    }
}

pub open spec fn dir_filled(es: Seq<(Vec<u8>, Node)>) -> bool
    decreases es,
{
    if es.len() == 0 {
        true
    } else {
        node_filled(es[0].1) && dir_filled(es.skip(1))
    }
}

/// A name a tree line can carry and a path component: non-empty,
/// without separators or newlines.
pub open spec fn clean_name(nm: Seq<u8>) -> bool {
    nm.len() > 0 && forall|j: int| 0 <= j < nm.len() ==> nm[j] != 47 && nm[j] != 10
}

/// An id a tree line can carry: without spaces or newlines.
pub open spec fn clean_oid(o: Seq<u8>) -> bool {
    forall|j: int| 0 <= j < o.len() ==> o[j] != 32 && o[j] != 10
}

pub open spec fn node_clean(n: Node) -> bool
    decreases n,
{
    match n {
        Node::File(oid) => clean_oid(oid@),
        Node::Dir(es) => dir_clean(es@),
    }
}

pub open spec fn dir_clean(es: Seq<(Vec<u8>, Node)>) -> bool
    decreases es,
{
    if es.len() == 0 {
        true
    } else {
        clean_name(es[0].0@) && node_clean(es[0].1) && dir_clean(es.skip(1))
    }
}

/// The expansion fuel a node demands when it stands as a child entry.
pub open spec fn node_need(n: Node) -> nat
    decreases n,
{
    match n {
        Node::File(_) => 0,
        Node::Dir(es) => 1 + dir_need(es@),
    }
}

/// The expansion fuel a directory's entries demand.
pub open spec fn dir_need(es: Seq<(Vec<u8>, Node)>) -> nat
    decreases es,
{
    if es.len() == 0 {
        0
    } else {
        let rest = dir_need(es.skip(1));
        if node_need(es[0].1) > rest {
            node_need(es[0].1)
        } else {
            rest
        }
    }
}

/// The object id a node is stored under: a file's blob id, or the
/// digest of a directory's serialised text.
pub open spec fn node_oid(n: Node) -> Seq<u8>
    decreases n,
{
    match n {
        Node::File(oid) => oid@,
        Node::Dir(es) => sha1_of(tree_text(dir_entries(es@))),
    }
}

pub open spec fn node_kind(n: Node) -> DataType {
    match n {
        Node::File(_) => DataType::Blob,
        Node::Dir(_) => DataType::Tree,
    }
}

/// The serialised entry list of a directory.
pub open spec fn dir_entries(es: Seq<(Vec<u8>, Node)>) -> Seq<(DataType, Seq<u8>, Seq<u8>)>
    decreases es,
{
    if es.len() == 0 {
        Seq::empty()
    } else {
        seq![(node_kind(es[0].1), node_oid(es[0].1), es[0].0@)] + dir_entries(es.skip(1))
    }
}

/// The serialised text of a directory.
pub open spec fn dir_text(es: Seq<(Vec<u8>, Node)>) -> Seq<u8> {
    tree_text(dir_entries(es))
}

/// A stored tree whose object sits under the digest of its own
/// content, recursively: the shape `write_tree` leaves behind.
pub open spec fn hash_rooted(objs: Map<Seq<u8>, Seq<u8>>, oid: Seq<u8>, fuel: nat) -> bool
    decreases fuel, 1int, 0int,
{
    &&& Ugit::get_object_ok(objs, oid, DataType::Tree)
    &&& oid == sha1_of(crate::codec::env_content(objs[oid]))
    &&& objs[oid] == envelope(DataType::Tree, crate::codec::env_content(objs[oid]))
    &&& rooted_entries(objs, lines_of(crate::codec::env_content(objs[oid])), fuel)
}

pub open spec fn rooted_entries(objs: Map<Seq<u8>, Seq<u8>>, lines: Seq<Seq<u8>>, fuel: nat) -> bool
    decreases fuel, 0int, lines.len(),
{
    if lines.len() == 0 {
        true
    } else {
        let f = parse_tree_line(lines[0]);
        let kind = kind_of_tag(f.0);
        if kind is Blob {
            rooted_entries(objs, lines.skip(1), fuel)
        } else if kind is Tree {
            fuel > 0 && hash_rooted(objs, f.1, (fuel - 1) as nat) && rooted_entries(
                objs,
                lines.skip(1),
                fuel,
            )
        } else {
            false
        }
    }
}

/// A write this lemma tolerates: a tree envelope, or an envelope of
/// another kind whose content no rooted tree can share (every rooted
/// tree's content is empty or starts with a kind tag).
pub open spec fn benign_write(k: DataType, t: Seq<u8>) -> bool {
    k is Tree || (t.len() > 0 && t[0] != 66 && t[0] != 84)
}

/// A hash-rooted tree's content is empty or starts with a kind tag.
proof fn lemma_rooted_content_shape(objs: Map<Seq<u8>, Seq<u8>>, oid: Seq<u8>, fuel: nat)
    requires
        hash_rooted(objs, oid, fuel),
    ensures
        ({
            let c = crate::codec::env_content(objs[oid]);
            c.len() == 0 || c[0] == 66 || c[0] == 84
        }),
{
    let c = crate::codec::env_content(objs[oid]);
    if c.len() > 0 {
        let lines = lines_of(c);
        crate::codec::lemma_first_pos(c, 10);
        let line0 = lines[0];
        assert(lines.len() > 0);
        match crate::codec::first_pos(c, 10) {
            Some(i) => {
                assert(line0 == c.take(i));
            },
            None => {
                assert(line0 == c);
            },
        }
        let f = parse_tree_line(line0);
        let kind = kind_of_tag(f.0);
        assert(kind is Blob || kind is Tree);
        assert(f.0 == tag_of(DataType::Blob) || f.0 == tag_of(DataType::Tree));
        assert(f.0.len() > 0 && (f.0[0] == 66 || f.0[0] == 84));
        crate::codec::lemma_first_pos(line0, 32);
        match crate::codec::first_pos(line0, 32) {
            Some(j) => {
                assert(f.0 == line0.take(j));
                assert(f.0[0] == line0[0]);
            },
            None => {
                assert(f.0 == line0);
            },
        }
        assert(line0[0] == c[0]);
    }
}

/// Writing one more object leaves every hash-rooted tree, and what it
/// expands to, unchanged: under an injective digest a benign write
/// landing on a rooted object is the very bytes already there.
pub proof fn lemma_tree_preserved(
    objs: Map<Seq<u8>, Seq<u8>>,
    objs2: Map<Seq<u8>, Seq<u8>>,
    k: DataType,
    t: Seq<u8>,
    oid: Seq<u8>,
    base: Seq<u8>,
    fuel: nat,
)
    requires
        digest_injective(),
        benign_write(k, t),
        objs2 == objs.insert(sha1_of(t), envelope(k, t)),
        hash_rooted(objs, oid, fuel),
    ensures
        hash_rooted(objs2, oid, fuel),
        flatten_tree(objs2, oid, base, fuel) == flatten_tree(objs, oid, base, fuel),
    decreases fuel, 1int, 0int,
{
    let c = crate::codec::env_content(objs[oid]);
    if oid == sha1_of(t) {
        assert(sha1_of(t) == sha1_of(c));
        assert(t == c);
        if k is Tree {
            assert(objs2[oid] == objs[oid]);
        } else {
            lemma_rooted_content_shape(objs, oid, fuel);
            assert(false);
        }
    } else {
        assert(objs2[oid] == objs[oid]);
    }
    assert(Ugit::get_object_ok(objs2, oid, DataType::Tree));
    lemma_entries_preserved(objs, objs2, k, t, lines_of(c), base, fuel);
    assert(flatten_tree(objs2, oid, base, fuel) == flatten_entries(
        objs2,
        lines_of(c),
        base,
        Map::empty(),
        fuel,
    ));
    assert(flatten_tree(objs, oid, base, fuel) == flatten_entries(
        objs,
        lines_of(c),
        base,
        Map::empty(),
        fuel,
    ));
    assert(flatten_entries(objs2, lines_of(c), base, Map::empty(), fuel) == flatten_entries(
        objs,
        lines_of(c),
        base,
        Map::empty(),
        fuel,
    ));
}

/// The entry-level companion of `lemma_tree_preserved`.
pub proof fn lemma_entries_preserved(
    objs: Map<Seq<u8>, Seq<u8>>,
    objs2: Map<Seq<u8>, Seq<u8>>,
    k: DataType,
    t: Seq<u8>,
    lines: Seq<Seq<u8>>,
    base: Seq<u8>,
    fuel: nat,
)
    requires
        digest_injective(),
        benign_write(k, t),
        objs2 == objs.insert(sha1_of(t), envelope(k, t)),
        rooted_entries(objs, lines, fuel),
    ensures
        rooted_entries(objs2, lines, fuel),
        forall|acc: Map<Seq<u8>, Seq<u8>>|
            #[trigger] flatten_entries(objs2, lines, base, acc, fuel) == flatten_entries(
                objs,
                lines,
                base,
                acc,
                fuel,
            ),
    decreases fuel, 0int, lines.len(),
{
    if lines.len() == 0 {
    } else {
        let f = parse_tree_line(lines[0]);
        let kind = kind_of_tag(f.0);
        if kind is Blob {
            lemma_entries_preserved(objs, objs2, k, t, lines.skip(1), base, fuel);
            assert forall|acc: Map<Seq<u8>, Seq<u8>>|
                #[trigger] flatten_entries(objs2, lines, base, acc, fuel) == flatten_entries(
                objs,
                lines,
                base,
                acc,
                fuel,
            ) by {
                let acc2 = acc.insert(join_path(base, f.2), f.1);
                assert(flatten_entries(objs2, lines, base, acc, fuel) == flatten_entries(
                    objs2,
                    lines.skip(1),
                    base,
                    acc2,
                    fuel,
                ));
                assert(flatten_entries(objs, lines, base, acc, fuel) == flatten_entries(
                    objs,
                    lines.skip(1),
                    base,
                    acc2,
                    fuel,
                ));
            }
        } else if kind is Tree {
            lemma_tree_preserved(objs, objs2, k, t, f.1, join_path(base, f.2), (fuel - 1) as nat);
            lemma_entries_preserved(objs, objs2, k, t, lines.skip(1), base, fuel);
            let ft = flatten_tree(objs, f.1, join_path(base, f.2), (fuel - 1) as nat);
            assert(flatten_tree(objs2, f.1, join_path(base, f.2), (fuel - 1) as nat) == ft);
            assert forall|acc: Map<Seq<u8>, Seq<u8>>|
                #[trigger] flatten_entries(objs2, lines, base, acc, fuel) == flatten_entries(
                objs,
                lines,
                base,
                acc,
                fuel,
            ) by {
                match ft {
                    Some(sub) => {
                        let acc2 = acc.union_prefer_right(sub);
                        assert(flatten_entries(objs2, lines, base, acc, fuel) == flatten_entries(
                            objs2,
                            lines.skip(1),
                            base,
                            acc2,
                            fuel,
                        ));
                        assert(flatten_entries(objs, lines, base, acc, fuel) == flatten_entries(
                            objs,
                            lines.skip(1),
                            base,
                            acc2,
                            fuel,
                        ));
                    },
                    None => {
                        assert(flatten_entries(objs2, lines, base, acc, fuel) is None);
                        assert(flatten_entries(objs, lines, base, acc, fuel) is None);
                    },
                }
            }
        }
    }
}

/// Tree writes preserve every already-rooted tree and its expansion.
pub open spec fn preserves_trees(o1: Map<Seq<u8>, Seq<u8>>, o2: Map<Seq<u8>, Seq<u8>>) -> bool {
    forall|oid: Seq<u8>, fuel: nat|
        #[trigger] hash_rooted(o1, oid, fuel) ==> hash_rooted(o2, oid, fuel) && (forall|b: Seq<u8>|
            #[trigger] flatten_tree(o2, oid, b, fuel) == flatten_tree(o1, oid, b, fuel))
}

pub proof fn lemma_preserves_refl(o1: Map<Seq<u8>, Seq<u8>>)
    ensures
        preserves_trees(o1, o1),
{
}

pub proof fn lemma_preserves_trans(
    o1: Map<Seq<u8>, Seq<u8>>,
    o2: Map<Seq<u8>, Seq<u8>>,
    o3: Map<Seq<u8>, Seq<u8>>,
)
    requires
        preserves_trees(o1, o2),
        preserves_trees(o2, o3),
    ensures
        preserves_trees(o1, o3),
{
}

pub proof fn lemma_preserves_insert(
    objs: Map<Seq<u8>, Seq<u8>>,
    objs2: Map<Seq<u8>, Seq<u8>>,
    k: DataType,
    t: Seq<u8>,
)
    requires
        digest_injective(),
        benign_write(k, t),
        objs2 == objs.insert(sha1_of(t), envelope(k, t)),
    ensures
        preserves_trees(objs, objs2),
{
    assert forall|oid: Seq<u8>, fuel: nat| #[trigger] hash_rooted(objs, oid, fuel) implies hash_rooted(
        objs2,
        oid,
        fuel,
    ) && (forall|b: Seq<u8>|
        #[trigger] flatten_tree(objs2, oid, b, fuel) == flatten_tree(objs, oid, b, fuel)) by {
        assert forall|b: Seq<u8>|
            #[trigger] flatten_tree(objs2, oid, b, fuel) == flatten_tree(objs, oid, b, fuel) by {
            lemma_tree_preserved(objs, objs2, k, t, oid, b, fuel);
        }
        lemma_tree_preserved(objs, objs2, k, t, oid, Seq::empty(), fuel);
    }
}

/// The ids that this directory level writes into its lines are fit
/// for tree lines.
pub open spec fn entry_oids_clean(es: Seq<(Vec<u8>, Node)>) -> bool
    decreases es,
{
    if es.len() == 0 {
        true
    } else {
        clean_oid(node_oid(es[0].1)) && entry_oids_clean(es.skip(1))
    }
}

/// Every direct subdirectory of `es` has been written to the store:
/// its object expands to its flat mapping, at any base and any
/// sufficient fuel.
pub open spec fn subtrees_stored(objs: Map<Seq<u8>, Seq<u8>>, es: Seq<(Vec<u8>, Node)>) -> bool
    decreases es,
{
    if es.len() == 0 {
        true
    } else {
        (match es[0].1 {
            Node::Dir(sub) => (forall|b2: Seq<u8>, f2: nat|
                f2 >= dir_need(sub@) ==> #[trigger] flatten_tree(objs, node_oid(es[0].1), b2, f2)
                    == Some(dir_flat(sub@, b2))) && (forall|f2: nat|
                f2 >= dir_need(sub@) ==> #[trigger] hash_rooted(objs, node_oid(es[0].1), f2)),
            Node::File(_) => true,
        }) && subtrees_stored(objs, es.skip(1))
    }
}

/// Concatenation distributes over serialisation.
pub proof fn lemma_tree_text_append(a: Seq<(DataType, Seq<u8>, Seq<u8>)>, b: Seq<(DataType, Seq<u8>, Seq<u8>)>)
    ensures
        tree_text(a + b) == tree_text(a) + tree_text(b),
    decreases a.len(),
{
    if a.len() == 0 {
        assert(a + b =~= b);
        assert(tree_text(a) + tree_text(b) =~= tree_text(b));
    } else {
        assert((a + b).skip(1) =~= a.skip(1) + b);
        lemma_tree_text_append(a.skip(1), b);
        assert((a + b)[0] == a[0]);
        assert(tree_text(a + b) =~= tree_text(a) + tree_text(b));
    }
}

pub proof fn lemma_dir_entries_append(a: Seq<(Vec<u8>, Node)>, b: Seq<(Vec<u8>, Node)>)
    ensures
        dir_entries(a + b) == dir_entries(a) + dir_entries(b),
    decreases a.len(),
{
    if a.len() == 0 {
        assert(a + b =~= b);
        assert(dir_entries(a) + dir_entries(b) =~= dir_entries(b));
    } else {
        assert((a + b).skip(1) =~= a.skip(1) + b);
        lemma_dir_entries_append(a.skip(1), b);
        assert((a + b)[0] == a[0]);
        assert(dir_entries(a + b) =~= dir_entries(a) + dir_entries(b));
    }
}

/// Extending the record of stored subtrees by one more entry.
pub proof fn lemma_subtrees_stored_push(
    objs: Map<Seq<u8>, Seq<u8>>,
    es: Seq<(Vec<u8>, Node)>,
    e: (Vec<u8>, Node),
)
    requires
        subtrees_stored(objs, es),
        match e.1 {
            Node::Dir(sub) => (forall|b2: Seq<u8>, f2: nat|
                f2 >= dir_need(sub@) ==> #[trigger] flatten_tree(objs, node_oid(e.1), b2, f2)
                    == Some(dir_flat(sub@, b2))) && (forall|f2: nat|
                f2 >= dir_need(sub@) ==> #[trigger] hash_rooted(objs, node_oid(e.1), f2)),
            Node::File(_) => true,
        },
    ensures
        subtrees_stored(objs, es.push(e)),
    decreases es.len(),
{
    let es2 = es.push(e);
    if es.len() == 0 {
        assert(es2[0] == e);
        assert(es2.skip(1) =~= Seq::<(Vec<u8>, Node)>::empty());
        assert(subtrees_stored(objs, Seq::<(Vec<u8>, Node)>::empty()));
        match e.1 {
            Node::Dir(sub) => {
                assert forall|b2: Seq<u8>, f2: nat| f2 >= dir_need(sub@) implies #[trigger] flatten_tree(
                    objs,
                    node_oid(es2[0].1),
                    b2,
                    f2,
                ) == Some(dir_flat(sub@, b2)) by {
                    assert(flatten_tree(objs, node_oid(e.1), b2, f2) == Some(dir_flat(sub@, b2)));
                }
                assert forall|f2: nat| f2 >= dir_need(sub@) implies #[trigger] hash_rooted(
                    objs,
                    node_oid(es2[0].1),
                    f2,
                ) by {
                    assert(hash_rooted(objs, node_oid(e.1), f2));
                }
            },
            Node::File(_) => {},
        }
    } else {
        assert(es2[0] == es[0]);
        assert(es2.skip(1) =~= es.skip(1).push(e));
        lemma_subtrees_stored_push(objs, es.skip(1), e);
        match es[0].1 {
            Node::Dir(sub) => {
                assert forall|b2: Seq<u8>, f2: nat| f2 >= dir_need(sub@) implies #[trigger] flatten_tree(
                    objs,
                    node_oid(es2[0].1),
                    b2,
                    f2,
                ) == Some(dir_flat(sub@, b2)) by {
                    assert(flatten_tree(objs, node_oid(es[0].1), b2, f2) == Some(
                        dir_flat(sub@, b2),
                    ));
                }
                assert forall|f2: nat| f2 >= dir_need(sub@) implies #[trigger] hash_rooted(
                    objs,
                    node_oid(es2[0].1),
                    f2,
                ) by {
                    assert(hash_rooted(objs, node_oid(es[0].1), f2));
                }
            },
            Node::File(_) => {},
        }
    }
}

pub proof fn lemma_entry_oids_clean_push(es: Seq<(Vec<u8>, Node)>, e: (Vec<u8>, Node))
    requires
        entry_oids_clean(es),
        clean_oid(node_oid(e.1)),
    ensures
        entry_oids_clean(es.push(e)),
    decreases es.len(),
{
    let es2 = es.push(e);
    if es.len() == 0 {
        assert(es2[0] == e);
        assert(es2.skip(1) =~= Seq::<(Vec<u8>, Node)>::empty());
        assert(entry_oids_clean(Seq::<(Vec<u8>, Node)>::empty()));
        assert(clean_oid(node_oid(es2[0].1)));
    } else {
        assert(es2[0] == es[0]);
        assert(es2.skip(1) =~= es.skip(1).push(e));
        lemma_entry_oids_clean_push(es.skip(1), e);
        assert(clean_oid(node_oid(es2[0].1)));
    }
}

/// Stored-subtree facts survive any store change that preserves
/// rooted trees.
pub proof fn lemma_subtrees_stored_preserved(
    o1: Map<Seq<u8>, Seq<u8>>,
    o2: Map<Seq<u8>, Seq<u8>>,
    es: Seq<(Vec<u8>, Node)>,
)
    requires
        preserves_trees(o1, o2),
        subtrees_stored(o1, es),
    ensures
        subtrees_stored(o2, es),
    decreases es.len(),
{
    if es.len() > 0 {
        lemma_subtrees_stored_preserved(o1, o2, es.skip(1));
        match es[0].1 {
            Node::Dir(sub) => {
                assert forall|b2: Seq<u8>, f2: nat| f2 >= dir_need(sub@) implies #[trigger] flatten_tree(
                    o2,
                    node_oid(es[0].1),
                    b2,
                    f2,
                ) == Some(dir_flat(sub@, b2)) by {
                    assert(hash_rooted(o1, node_oid(es[0].1), f2));
                    assert(flatten_tree(o1, node_oid(es[0].1), b2, f2) == Some(dir_flat(sub@, b2)));
                }
                assert forall|f2: nat| f2 >= dir_need(sub@) implies #[trigger] hash_rooted(
                    o2,
                    node_oid(es[0].1),
                    f2,
                ) by {
                    assert(hash_rooted(o1, node_oid(es[0].1), f2));
                }
            },
            Node::File(_) => {},
        }
    }
}

/// A serialised directory's lines are its entry lines.
pub proof fn lemma_dir_lines(es: Seq<(Vec<u8>, Node)>)
    requires
        dir_clean(es),
        entry_oids_clean(es),
    ensures
        lines_of(dir_text(es)) == Seq::new(es.len(), |i: int|
            tree_line(node_kind(es[i].1), node_oid(es[i].1), es[i].0@),
        ),
    decreases es.len(),
{
    if es.len() == 0 {
        assert(tree_text(dir_entries(es)) =~= Seq::<u8>::empty());
        assert(lines_of(dir_text(es)) =~= Seq::new(0, |i: int|
            tree_line(node_kind(es[i].1), node_oid(es[i].1), es[i].0@),
        ));
    } else {
        let e0 = dir_entries(es)[0];
        let line0 = tree_line(e0.0, e0.1, e0.2);
        let rest = es.skip(1);
        assert(dir_entries(es).skip(1) =~= dir_entries(rest));
        assert(dir_text(es) =~= line0 + seq![10u8] + dir_text(rest));
        assert forall|j: int| 0 <= j < line0.len() implies line0[j] != 10 by {
            crate::codec::lemma_tag_bytes(e0.0);
            let t = tag_of(e0.0);
            if j < t.len() {
                assert(line0[j] == t[j]);
            } else if j == t.len() {
            } else if j < t.len() + 1 + e0.1.len() {
                assert(line0[j] == e0.1[j - t.len() - 1]);
            } else if j == t.len() + 1 + e0.1.len() {
            } else {
                assert(line0[j] == e0.2[j - t.len() - 2 - e0.1.len()]);
            }
        }
        crate::codec::lemma_lines_of_line(line0, dir_text(rest));
        lemma_dir_lines(rest);
        assert forall|i: int| 0 <= i < es.len() implies (#[trigger] lines_of(dir_text(es))[i])
            == tree_line(node_kind(es[i].1), node_oid(es[i].1), es[i].0@) by {
            if i > 0 {
                assert(lines_of(dir_text(es))[i] == lines_of(dir_text(rest))[i - 1]);
                assert(rest[i - 1] == es[i]);
            }
        }
        assert(lines_of(dir_text(es)) =~= Seq::new(es.len(), |i: int|
            tree_line(node_kind(es[i].1), node_oid(es[i].1), es[i].0@),
        ));
    }
}

/// Reading back a directory whose subtrees are stored folds its lines
/// to exactly its flat mapping.
pub proof fn lemma_entries_established(
    objs: Map<Seq<u8>, Seq<u8>>,
    es: Seq<(Vec<u8>, Node)>,
    b: Seq<u8>,
    acc: Map<Seq<u8>, Seq<u8>>,
    f: nat,
)
    requires
        dir_clean(es),
        entry_oids_clean(es),
        f >= dir_need(es),
        subtrees_stored(objs, es),
    ensures
        flatten_entries(objs, lines_of(dir_text(es)), b, acc, f) == Some(
            acc.union_prefer_right(dir_flat(es, b)),
        ),
        rooted_entries(objs, lines_of(dir_text(es)), f),
    decreases es.len(),
{
    lemma_dir_lines(es);
    let lines = lines_of(dir_text(es));
    if es.len() == 0 {
        assert(lines.len() == 0);
        assert(acc.union_prefer_right(dir_flat(es, b)) =~= acc);
    } else {
        let name0 = es[0].0@;
        let n0 = es[0].1;
        let oid0 = node_oid(n0);
        let kind0 = node_kind(n0);
        let line0 = tree_line(kind0, oid0, name0);
        assert(lines[0] == line0);
        lemma_dir_clean_at(es);
        crate::codec::lemma_tree_line_round_trip(kind0, oid0, name0);
        assert(parse_tree_line(line0) == (tag_of(kind0), oid0, name0));
        assert(kind_of_tag(tag_of(DataType::Blob)) == DataType::Blob);
        assert(tag_of(DataType::Tree) != tag_of(DataType::Blob)) by {
            assert(tag_of(DataType::Tree)[0] != tag_of(DataType::Blob)[0]);
        }
        assert(kind_of_tag(tag_of(DataType::Tree)) == DataType::Tree);
        let rest = es.skip(1);
        lemma_dir_lines(rest);
        assert(lines.skip(1) =~= lines_of(dir_text(rest))) by {
            assert forall|i: int| 0 <= i < lines.skip(1).len() implies lines.skip(1)[i]
                == lines_of(dir_text(rest))[i] by {
                assert(lines.skip(1)[i] == lines[i + 1]);
                assert(rest[i] == es[i + 1]);
            }
        }
        match n0 {
            Node::File(ov) => {
                let acc2 = acc.insert(join_path(b, name0), oid0);
                assert(flatten_entries(objs, lines, b, acc, f) == flatten_entries(
                    objs,
                    lines.skip(1),
                    b,
                    acc2,
                    f,
                ));
                lemma_entries_established(objs, rest, b, acc2, f);
                assert(node_flat(n0, join_path(b, name0)) == Map::<Seq<u8>, Seq<u8>>::empty().insert(
                    join_path(b, name0),
                    oid0,
                ));
                assert(acc2.union_prefer_right(dir_flat(rest, b)) =~= acc.union_prefer_right(
                    node_flat(n0, join_path(b, name0)).union_prefer_right(dir_flat(rest, b)),
                ));
                assert(dir_flat(es, b) == node_flat(n0, join_path(b, name0)).union_prefer_right(
                    dir_flat(rest, b),
                ));
            },
            Node::Dir(sub) => {
                assert(node_need(n0) == 1 + dir_need(sub@));
                assert(f >= node_need(n0));
                assert(f >= 1);
                assert((f - 1) as nat >= dir_need(sub@));
                assert(flatten_tree(objs, oid0, join_path(b, name0), (f - 1) as nat) == Some(
                    dir_flat(sub@, join_path(b, name0)),
                ));
                assert(hash_rooted(objs, oid0, (f - 1) as nat));
                let subm = dir_flat(sub@, join_path(b, name0));
                let acc2 = acc.union_prefer_right(subm);
                assert(flatten_entries(objs, lines, b, acc, f) == flatten_entries(
                    objs,
                    lines.skip(1),
                    b,
                    acc2,
                    f,
                ));
                lemma_entries_established(objs, rest, b, acc2, f);
                assert(node_flat(n0, join_path(b, name0)) == subm);
                assert(acc2.union_prefer_right(dir_flat(rest, b)) =~= acc.union_prefer_right(
                    subm.union_prefer_right(dir_flat(rest, b)),
                ));
                assert(dir_flat(es, b) == node_flat(n0, join_path(b, name0)).union_prefer_right(
                    dir_flat(rest, b),
                ));
            },
        }
    }
}

/// A freshly written directory object expands to its flat mapping at
/// any base, under any sufficient fuel.
pub proof fn lemma_dir_established(objs: Map<Seq<u8>, Seq<u8>>, es: Seq<(Vec<u8>, Node)>)
    requires
        dir_clean(es),
        entry_oids_clean(es),
        subtrees_stored(objs, es),
        objs.contains_key(sha1_of(dir_text(es))),
        objs[sha1_of(dir_text(es))] == envelope(DataType::Tree, dir_text(es)),
    ensures
        forall|b: Seq<u8>, f: nat|
            f >= dir_need(es) ==> #[trigger] flatten_tree(objs, sha1_of(dir_text(es)), b, f)
                == Some(dir_flat(es, b)),
        forall|f: nat|
            f >= dir_need(es) ==> #[trigger] hash_rooted(objs, sha1_of(dir_text(es)), f),
{
    let root = sha1_of(dir_text(es));
    crate::codec::lemma_envelope_round_trip(DataType::Tree, dir_text(es));
    assert(crate::codec::env_content(objs[root]) == dir_text(es));
    assert(Ugit::get_object_ok(objs, root, DataType::Tree));
    assert forall|b: Seq<u8>, f: nat| f >= dir_need(es) implies #[trigger] flatten_tree(
        objs,
        root,
        b,
        f,
    ) == Some(dir_flat(es, b)) by {
        lemma_entries_established(objs, es, b, Map::empty(), f);
        assert(Map::<Seq<u8>, Seq<u8>>::empty().union_prefer_right(dir_flat(es, b)) =~= dir_flat(
            es,
            b,
        ));
    }
    assert forall|f: nat| f >= dir_need(es) implies #[trigger] hash_rooted(objs, root, f) by {
        lemma_entries_established(objs, es, Seq::empty(), Map::empty(), f);
    }
}

/// Append one serialised entry line to a tree text under
/// construction.
fn push_line(text: &mut Vec<u8>, kind: DataType, oid: &Vec<u8>, name: &Vec<u8>)
    ensures
        final(text)@ == old(text)@ + tree_line(kind, oid@, name@) + seq![10u8],
{
    let tag = crate::codec::tag_bytes(kind);
    append_bytes(text, &tag);
    text.push(32);
    append_bytes(text, oid);
    text.push(32);
    append_bytes(text, name);
    text.push(10);
    proof {
        assert(text@ =~= old(text)@ + tree_line(kind, oid@, name@) + seq![10u8]);
    }
}

impl Ugit {
    /// Hash one directory level of a built tree into the store,
    /// children first, and return the id the level was written under.
    pub fn write_tree_recursive(&mut self, es: &Vec<(Vec<u8>, Node)>) -> (r: Result<
        Vec<u8>,
        DateErr,
    >)
        requires
            old(self).inv(),
        ensures
            final(self).inv(),
            r matches Ok(o) && o@ == sha1_of(dir_text(es@)),
            hex_str(sha1_of(dir_text(es@))),
            final(self).refs_map() == old(self).refs_map(),
            final(self).index_map() == old(self).index_map(),
            final(self).git_dir_view() == old(self).git_dir_view(),
            digest_injective() ==> preserves_trees(
                old(self).objects_map(),
                final(self).objects_map(),
            ),
            digest_injective() && dir_clean(es@) ==> (forall|b: Seq<u8>, f: nat|
                f >= dir_need(es@) ==> #[trigger] flatten_tree(
                    final(self).objects_map(),
                    sha1_of(dir_text(es@)),
                    b,
                    f,
                ) == Some(dir_flat(es@, b))) && (forall|f: nat|
                f >= dir_need(es@) ==> #[trigger] hash_rooted(
                    final(self).objects_map(),
                    sha1_of(dir_text(es@)),
                    f,
                )),
        decreases es,
    {
        let ghost objs0 = self.objects_map();
        let mut text: Vec<u8> = Vec::new();
        let n = es.len();
        let mut i: usize = 0;
        proof {
            assert(es@.take(0) =~= Seq::<(Vec<u8>, Node)>::empty());
            assert(dir_entries(Seq::<(Vec<u8>, Node)>::empty()) =~= Seq::<(
                DataType,
                Seq<u8>,
                Seq<u8>,
            )>::empty());
            assert(text@ =~= tree_text(dir_entries(es@.take(0))));
            lemma_preserves_refl(objs0);
            assert(subtrees_stored(self.objects_map(), es@.take(0)));
            assert(entry_oids_clean(es@.take(0)));
        }
        while i < n
            invariant
                self.inv(),
                n == es@.len(),
                i <= n,
                text@ == dir_text(es@.take(i as int)),
                self.refs_map() == old(self).refs_map(),
                self.index_map() == old(self).index_map(),
                self.git_dir_view() == old(self).git_dir_view(),
                objs0 == old(self).objects_map(),
                digest_injective() ==> preserves_trees(objs0, self.objects_map()),
                digest_injective() && dir_clean(es@) ==> subtrees_stored(
                    self.objects_map(),
                    es@.take(i as int),
                ),
                digest_injective() && dir_clean(es@) ==> entry_oids_clean(es@.take(i as int)),
            decreases n - i,
        {
            let ghost e = es@[i as int];
            let ghost taken = es@.take(i as int);
            let ghost objs_before = self.objects_map();
            let name = bytes_clone(&es[i].0);
            match &es[i].1 {
                Node::File(oid) => {
                    push_line(&mut text, DataType::Blob, oid, &name);
                    proof {
                        assert(node_oid(e.1) == oid@);
                        assert(node_kind(e.1) == DataType::Blob);
                        if digest_injective() && dir_clean(es@) {
                            lemma_dir_clean_at(es@);
                            assert(node_clean(e.1));
                            lemma_subtrees_stored_push(self.objects_map(), taken, e);
                            lemma_entry_oids_clean_push(taken, e);
                        }
                    }
                },
                Node::Dir(sub) => {
                    let child = match self.write_tree_recursive(sub) {
                        Ok(c) => c,
                        Err(err) => {
                            proof {
                                assert(false);
                            }
                            return Err(err);
                        },
                    };
                    proof {
                        assert(node_oid(e.1) == sha1_of(dir_text(sub@)));
                        assert(node_kind(e.1) == DataType::Tree);
                        assert(child@ == node_oid(e.1));
                        if digest_injective() {
                            lemma_preserves_trans(objs0, objs_before, self.objects_map());
                            if dir_clean(es@) {
                                lemma_dir_clean_at(es@);
                                assert(node_clean(e.1));
                                assert(dir_clean(sub@));
                                lemma_subtrees_stored_preserved(
                                    objs_before,
                                    self.objects_map(),
                                    taken,
                                );
                                lemma_subtrees_stored_push(self.objects_map(), taken, e);
                                crate::digest::lemma_hex_str_clean(sha1_of(dir_text(sub@)));
                                lemma_entry_oids_clean_push(taken, e);
                            }
                        }
                    }
                    push_line(&mut text, DataType::Tree, &child, &name);
                },
            }
            proof {
                assert(es@.take(i as int + 1) =~= taken + seq![e]);
                lemma_dir_entries_append(taken, seq![e]);
                assert(dir_entries(Seq::<(Vec<u8>, Node)>::empty()) == Seq::<(
                    DataType,
                    Seq<u8>,
                    Seq<u8>,
                )>::empty());
                assert(seq![e].skip(1) =~= Seq::<(Vec<u8>, Node)>::empty());
                assert(dir_entries(seq![e]) =~= seq![(node_kind(e.1), node_oid(e.1), e.0@)]);
                lemma_tree_text_append(dir_entries(taken), dir_entries(seq![e]));
                let single = seq![(node_kind(e.1), node_oid(e.1), e.0@)];
                assert(tree_text(Seq::<(DataType, Seq<u8>, Seq<u8>)>::empty()) == Seq::<u8>::empty());
                assert(single.skip(1) =~= Seq::<(DataType, Seq<u8>, Seq<u8>)>::empty());
                assert(tree_text(single) =~= tree_line(
                    node_kind(e.1),
                    node_oid(e.1),
                    e.0@,
                ) + seq![10u8]);
                assert(text@ =~= dir_text(es@.take(i as int + 1)));
                if digest_injective() && dir_clean(es@) {
                    assert(es@.take(i as int + 1) =~= taken.push(e));
                    assert(subtrees_stored(self.objects_map(), es@.take(i as int + 1)));
                    assert(entry_oids_clean(es@.take(i as int + 1)));
                }
            }
            i += 1;
        }
        proof {
            assert(es@.take(n as int) =~= es@);
        }
        let ghost objs1 = self.objects_map();
        let oid = match self.hash(&text, DataType::Tree) {
            Ok(o) => o,
            Err(err) => {
                proof {
                    assert(false);
                }
                return Err(err);
            },
        };
        proof {
            let objs2 = self.objects_map();
            assert(objs2 == objs1.insert(sha1_of(dir_text(es@)), envelope(
                DataType::Tree,
                dir_text(es@),
            )));
            if digest_injective() {
                lemma_preserves_insert(objs1, objs2, DataType::Tree, dir_text(es@));
                lemma_preserves_trans(objs0, objs1, objs2);
                if dir_clean(es@) {
                    lemma_subtrees_stored_preserved(objs1, objs2, es@);
                    lemma_dir_established(objs2, es@);
                }
            }
        }
        Ok(oid)
    }
}

/// Flattening distributes over entry concatenation.
pub proof fn lemma_dir_flat_append(a: Seq<(Vec<u8>, Node)>, c: Seq<(Vec<u8>, Node)>, base: Seq<u8>)
    ensures
        dir_flat(a + c, base) == dir_flat(a, base).union_prefer_right(dir_flat(c, base)),
    decreases a.len(),
{
    if a.len() == 0 {
        assert(a + c =~= c);
        assert(dir_flat(a, base).union_prefer_right(dir_flat(c, base)) =~= dir_flat(c, base));
    } else {
        assert((a + c).skip(1) =~= a.skip(1) + c);
        assert((a + c)[0] == a[0]);
        lemma_dir_flat_append(a.skip(1), c, base);
        assert(dir_flat(a + c, base) =~= dir_flat(a, base).union_prefer_right(dir_flat(c, base)));
    }
}

/// Collect a built tree's flat mapping into `out`, later entries
/// overriding earlier ones.
fn dir_to_flat(es: &Vec<(Vec<u8>, Node)>, base: &Vec<u8>, out: &mut crate::bytemap::ByteMap)
    requires
        old(out).inv(),
    ensures
        final(out).inv(),
        final(out)@ == old(out)@.union_prefer_right(dir_flat(es@, base@)),
    decreases es,
{
    let ghost out0 = out@;
    let n = es.len();
    let mut i: usize = 0;
    proof {
        assert(es@.take(0) =~= Seq::<(Vec<u8>, Node)>::empty());
        assert(out@ =~= out0.union_prefer_right(dir_flat(es@.take(0), base@)));
    }
    while i < n
        invariant
            n == es@.len(),
            i <= n,
            out.inv(),
            out@ == out0.union_prefer_right(dir_flat(es@.take(i as int), base@)),
        decreases n - i,
    {
        let ghost e = es@[i as int];
        let ghost taken = es@.take(i as int);
        let path = join_path_vec_local(base, &es[i].0);
        match &es[i].1 {
            Node::File(oid) => {
                out.insert(path, bytes_clone(oid));
            },
            Node::Dir(sub) => {
                dir_to_flat(sub, &path, out);
            },
        }
        proof {
            assert(es@.take(i as int + 1) =~= taken + seq![e]);
            lemma_dir_flat_append(taken, seq![e], base@);
            assert(seq![e].skip(1) =~= Seq::<(Vec<u8>, Node)>::empty());
            assert(dir_flat(Seq::<(Vec<u8>, Node)>::empty(), base@) == Map::<Seq<u8>, Seq<u8>>::empty());
            assert(dir_flat(seq![e], base@) =~= node_flat(e.1, join_path(base@, e.0@)));
            assert(out@ =~= out0.union_prefer_right(dir_flat(es@.take(i as int + 1), base@)));
        }
        i += 1;
    }
    proof {
        assert(es@.take(n as int) =~= es@);
    }
}

/// A joined path, locally (see the porcelain layer's join).
fn join_path_vec_local(base: &Vec<u8>, name: &Vec<u8>) -> (r: Vec<u8>)
    ensures
        r@ == join_path(base@, name@),
{
    if base.len() == 0 {
        bytes_clone(name)
    } else {
        let mut r = bytes_clone(base);
        r.push(47);
        append_bytes(&mut r, name);
        proof {
            assert(r@ =~= base@ + seq![47u8] + name@);
        }
        r
    }
}

/// Does every name and id in the tree fit a tree line?
fn check_clean(es: &Vec<(Vec<u8>, Node)>) -> (r: bool)
    ensures
        r == dir_clean(es@),
    decreases es,
{
    let n = es.len();
    let mut i: usize = 0;
    proof {
        assert(es@.skip(0) =~= es@);
    }
    while i < n
        invariant
            n == es@.len(),
            i <= n,
            dir_clean(es@) == dir_clean(es@.skip(i as int)),
        decreases n - i,
    {
        proof {
            assert(es@.skip(i as int)[0] == es@[i as int]);
            assert(es@.skip(i as int).skip(1) =~= es@.skip(i as int + 1));
        }
        if !clean_name_exec(&es[i].0) {
            return false;
        }
        let sub_ok = match &es[i].1 {
            Node::File(oid) => {
                let ok = clean_oid_exec(oid);
                proof {
                    assert(node_clean(es@[i as int].1) == clean_oid(oid@));
                }
                ok
            },
            Node::Dir(sub) => {
                let ok = check_clean(sub);
                proof {
                    assert(node_clean(es@[i as int].1) == dir_clean(sub@));
                }
                ok
            },
        };
        if !sub_ok {
            return false;
        }
        proof {
            assert(dir_clean(es@.skip(i as int)) == dir_clean(es@.skip(i as int + 1)));
        }
        i += 1;
    }
    proof {
        assert(es@.skip(n as int) =~= Seq::<(Vec<u8>, Node)>::empty());
        assert(dir_clean(Seq::<(Vec<u8>, Node)>::empty()));
    }
    true
}

fn clean_name_exec(nm: &Vec<u8>) -> (r: bool)
    ensures
        r == clean_name(nm@),
{
    if nm.len() == 0 {
        return false;
    }
    let n = nm.len();
    let mut i: usize = 0;
    while i < n
        invariant
            n == nm@.len(),
            i <= n,
            forall|j: int| 0 <= j < i ==> nm@[j] != 47 && nm@[j] != 10,
        decreases n - i,
    {
        if nm[i] == 47 || nm[i] == 10 {
            return false;
        }
        i += 1;
    }
    true
}

fn clean_oid_exec(o: &Vec<u8>) -> (r: bool)
    ensures
        r == clean_oid(o@),
{
    let n = o.len();
    let mut i: usize = 0;
    while i < n
        invariant
            n == o@.len(),
            i <= n,
            forall|j: int| 0 <= j < i ==> o@[j] != 32 && o@[j] != 10,
        decreases n - i,
    {
        if o[i] == 32 || o[i] == 10 {
            return false;
        }
        i += 1;
    }
    true
}

/// Does expanding this tree stay within `budget` levels of nesting?
fn depth_ok(es: &Vec<(Vec<u8>, Node)>, budget: usize) -> (r: bool)
    ensures
        r == (dir_need(es@) <= budget as nat),
    decreases es,
{
    let n = es.len();
    let mut i: usize = 0;
    proof {
        assert(es@.skip(0) =~= es@);
    }
    while i < n
        invariant
            n == es@.len(),
            i <= n,
            (dir_need(es@) <= budget as nat) == (dir_need(es@.skip(i as int)) <= budget as nat),
        decreases n - i,
    {
        proof {
            assert(es@.skip(i as int)[0] == es@[i as int]);
            assert(es@.skip(i as int).skip(1) =~= es@.skip(i as int + 1));
        }
        let e_ok = match &es[i].1 {
            Node::File(_) => {
                proof {
                    assert(node_need(es@[i as int].1) == 0);
                }
                true
            },
            Node::Dir(sub) => {
                let ok = budget > 0 && depth_ok(sub, budget - 1);
                proof {
                    assert(node_need(es@[i as int].1) == 1 + dir_need(sub@));
                    assert(ok == (node_need(es@[i as int].1) <= budget as nat));
                }
                ok
            },
        };
        if !e_ok {
            return false;
        }
        proof {
            assert((dir_need(es@.skip(i as int)) <= budget as nat) == (dir_need(
                es@.skip(i as int + 1),
            ) <= budget as nat));
        }
        i += 1;
    }
    proof {
        assert(es@.skip(n as int) =~= Seq::<(Vec<u8>, Node)>::empty());
        assert(dir_need(Seq::<(Vec<u8>, Node)>::empty()) == 0);
    }
    true
}

/// The position where `name` sorts into the entry list.
fn lower_bound(es: &Vec<(Vec<u8>, Node)>, name: &Vec<u8>) -> (r: usize)
    ensures
        r <= es@.len(),
        forall|j: int| 0 <= j < r ==> lex_lt((#[trigger] es@[j]).0@, name@),
        r < es@.len() ==> !lex_lt(es@[r as int].0@, name@),
{
    let n = es.len();
    let mut i: usize = 0;
    loop
        invariant
            i <= n,
            n == es@.len(),
            forall|j: int| 0 <= j < i ==> lex_lt((#[trigger] es@[j]).0@, name@),
        decreases n - i,
    {
        if i >= n {
            return i;
        }
        let le = crate::bytes::bytes_le(&es[i].0, name);
        let eq = crate::bytes::bytes_eq(&es[i].0, name);
        if !(le && !eq) {
            return i;
        }
        i += 1;
    }
}

/// The position of an entry named `name`, if any.
fn find_name(es: &Vec<(Vec<u8>, Node)>, name: &Vec<u8>) -> (r: Option<usize>)
    ensures
        match r {
            Some(i) => i < es@.len() && es@[i as int].0@ == name@,
            None => forall|j: int| 0 <= j < es@.len() ==> (#[trigger] es@[j]).0@ != name@,
        },
{
    let n = es.len();
    let mut i: usize = 0;
    while i < n
        invariant
            n == es@.len(),
            i <= n,
            forall|j: int| 0 <= j < i ==> (#[trigger] es@[j]).0@ != name@,
        decreases n - i,
    {
        if crate::bytes::bytes_eq(&es[i].0, name) {
            return Some(i);
        }
        i += 1;
    }
    None
}

/// The hypotheses under which an insertion's effect is exact: a valid
/// path suffix, a serialisable id, and a well-formed level.
pub open spec fn ins_pre(es: Seq<(Vec<u8>, Node)>, suffix: Seq<u8>, v: Seq<u8>) -> bool {
    valid_path(suffix) && clean_oid(v) && dir_clean(es) && dir_sep(es) && dir_wf(es)
        && dir_filled(es)
}

/// The larger of two fuel bounds.
pub open spec fn need_max(a: nat, b: nat) -> nat {
    if a > b {
        a
    } else {
        b
    }
}

/// Insert the path suffix starting at `from` into a directory level,
/// creating intermediate directories; a component that collides with
/// a file leaves the tree unchanged from there on. For valid input
/// over a well-formed level the effect is exactly one added binding.
#[verifier::rlimit(100)]
fn dir_insert(es: Vec<(Vec<u8>, Node)>, path: &Vec<u8>, from: usize, oid: &Vec<u8>) -> (r: Vec<
    (Vec<u8>, Node),
>)
    requires
        from <= path@.len(),
    ensures
        ins_pre(es@, path@.skip(from as int), oid@) ==> ({
            let suffix = path@.skip(from as int);
            &&& dir_clean(r@)
            &&& dir_sep(r@)
            &&& dir_wf(r@)
            &&& dir_filled(r@)
            &&& r@.len() >= es@.len()
            &&& r@.len() >= 1
            &&& dir_need(r@) <= need_max(dir_need(es@), suffix.len())
            &&& forall|b: Seq<u8>|
                #[trigger] insert_ok(es@, b, join_path(b, suffix)) ==> dir_flat(r@, b) == dir_flat(
                    es@,
                    b,
                ).insert(join_path(b, suffix), oid@)
        }),
    decreases path@.len() - from,
{
    let ghost suffix = path@.skip(from as int);
    let ghost es0 = es@;
    let mut es = es;
    let n_path = path.len();
    match crate::codec::find_byte(path, from, 47) {
        None => {
            let name = crate::bytes::subvec(path, from, n_path);
            proof {
                assert(name@ =~= suffix);
                if ins_pre(es0, suffix, oid@) {
                    assert forall|j: int| 0 <= j < suffix.len() implies suffix[j] != 47 by {
                        assert(suffix[j] == path@[from + j]);
                    }
                    assert(clean_name(suffix));
                }
            }
            match find_name(&es, &name) {
                Some(i) => {
                    let ghost ii = i as int;
                    let _ = es.remove(i);
                    es.insert(i, (name, Node::File(crate::bytes::bytes_clone(oid))));
                    proof {
                        let r = es@;
                        assert(r =~= es0.update(ii, r[ii])) by {
                            es0.remove_ensures(ii);
                            es0.remove(ii).insert_ensures(ii, r[ii]);
                        }
                        if ins_pre(es0, suffix, oid@) {
                            lemma_dir_clean_at(es0);
                            lemma_dir_sep_at(es0);
                            assert forall|j: int| 0 <= j < r.len() implies clean_name(
                                (#[trigger] r[j]).0@,
                            ) && node_clean(r[j].1) && node_sep(r[j].1) by {
                                if j != ii {
                                    assert(r[j] == es0[j]);
                                }
                            }
                            lemma_dir_clean_build(r);
                            assert forall|p2: int, q2: int|
                                0 <= p2 < q2 < r.len() implies (#[trigger] r[p2]).0@ != (
                            #[trigger] r[q2]).0@ by {
                                assert(r[p2].0@ == es0[p2].0@);
                                assert(r[q2].0@ == es0[q2].0@);
                            }
                            lemma_dir_sep_build(r);
                            lemma_dir_need_le(es0, dir_need(es0));
                            assert forall|j: int| 0 <= j < r.len() implies node_need(
                                (#[trigger] r[j]).1,
                            ) <= need_max(dir_need(es0), suffix.len()) by {
                                if j != ii {
                                    assert(r[j] == es0[j]);
                                }
                            }
                            lemma_dir_wf_at(es0);
                            lemma_dir_filled_at(es0);
                            assert forall|p2: int, q2: int|
                                0 <= p2 < q2 < r.len() implies lex_lt(
                                (#[trigger] r[p2]).0@,
                                (#[trigger] r[q2]).0@,
                            ) by {
                                assert(r[p2].0@ == es0[p2].0@);
                                assert(r[q2].0@ == es0[q2].0@);
                            }
                            assert forall|j: int| 0 <= j < r.len() implies node_wf(
                                (#[trigger] r[j]).1,
                            ) && node_filled(r[j].1) by {
                                if j != ii {
                                    assert(r[j] == es0[j]);
                                }
                            }
                            lemma_dir_wf_build(r);
                            lemma_dir_filled_build(r);
                            assert(r.len() >= es0.len() && r.len() >= 1);
                            lemma_dir_need_le(r, need_max(dir_need(es0), suffix.len()));
                            assert forall|b: Seq<u8>|
                                #[trigger] insert_ok(es0, b, join_path(b, suffix)) implies dir_flat(
                                r,
                                b,
                            ) == dir_flat(es0, b).insert(join_path(b, suffix), oid@) by {
                                let target = join_path(b, suffix);
                                let jp = join_path(b, es0[ii].0@);
                                assert(jp == target);
                                lemma_node_keys(es0[ii].1, jp);
                                assert(node_flat(r[ii].1, join_path(b, r[ii].0@)) =~= node_flat(
                                    es0[ii].1,
                                    jp,
                                ).insert(target, oid@)) by {
                                    assert forall|q: Seq<u8>| #[trigger] node_flat(
                                        es0[ii].1,
                                        jp,
                                    ).contains_key(q) implies q == target by {
                                        if q != target {
                                            assert(dir_prefix_of(target, q));
                                            lemma_dir_flat_local(es0, b, ii, q);
                                            assert(dir_flat(es0, b).contains_key(q));
                                            assert(false);
                                        }
                                    }
                                }
                                lemma_flat_update_entry(es0, r, b, ii, target, oid@);
                            }
                        }
                    }
                    es
                },
                None => {
                    let p = lower_bound(&es, &name);
                    es.insert(p, (name, Node::File(crate::bytes::bytes_clone(oid))));
                    proof {
                        let r = es@;
                        let pp = p as int;
                        es0.insert_ensures(pp, r[pp]);
                        assert(r == es0.insert(pp, r[pp]));
                        if ins_pre(es0, suffix, oid@) {
                            lemma_dir_clean_at(es0);
                            lemma_dir_sep_at(es0);
                            assert forall|j: int| 0 <= j < r.len() implies clean_name(
                                (#[trigger] r[j]).0@,
                            ) && node_clean(r[j].1) && node_sep(r[j].1) by {
                                if j < pp {
                                    assert(r[j] == es0[j]);
                                } else if j > pp {
                                    assert(r[j] == es0[j - 1]);
                                }
                            }
                            lemma_dir_clean_build(r);
                            assert forall|p2: int, q2: int|
                                0 <= p2 < q2 < r.len() implies (#[trigger] r[p2]).0@ != (
                            #[trigger] r[q2]).0@ by {
                                if p2 < pp {
                                    assert(r[p2] == es0[p2]);
                                }
                                if p2 > pp {
                                    assert(r[p2] == es0[p2 - 1]);
                                }
                                if q2 < pp {
                                    assert(r[q2] == es0[q2]);
                                }
                                if q2 > pp {
                                    assert(r[q2] == es0[q2 - 1]);
                                }
                            }
                            lemma_dir_sep_build(r);
                            lemma_dir_need_le(es0, dir_need(es0));
                            assert forall|j: int| 0 <= j < r.len() implies node_need(
                                (#[trigger] r[j]).1,
                            ) <= need_max(dir_need(es0), suffix.len()) by {
                                if j < pp {
                                    assert(r[j] == es0[j]);
                                } else if j > pp {
                                    assert(r[j] == es0[j - 1]);
                                }
                            }
                            lemma_dir_wf_at(es0);
                            lemma_dir_filled_at(es0);
                            assert forall|p2: int, q2: int|
                                0 <= p2 < q2 < r.len() implies lex_lt(
                                (#[trigger] r[p2]).0@,
                                (#[trigger] r[q2]).0@,
                            ) by {
                                if p2 < pp {
                                    assert(r[p2] == es0[p2]);
                                }
                                if p2 > pp {
                                    assert(r[p2] == es0[p2 - 1]);
                                }
                                if q2 < pp {
                                    assert(r[q2] == es0[q2]);
                                }
                                if q2 > pp {
                                    assert(r[q2] == es0[q2 - 1]);
                                }
                                if q2 == pp {
                                    // below the fresh entry: strictly smaller
                                    assert(lex_lt(es0[p2].0@, r[pp].0@));
                                } else if p2 == pp {
                                    // above the fresh entry: strictly larger
                                    assert(!lex_lt(es0[pp].0@, r[pp].0@));
                                    crate::bytes::lemma_lex_le_total(es0[pp].0@, r[pp].0@);
                                    assert(crate::bytes::lex_le(r[pp].0@, es0[pp].0@));
                                    if q2 - 1 > pp {
                                        assert(lex_lt(es0[pp].0@, es0[q2 - 1].0@));
                                        crate::bytes::lemma_lex_le_trans(
                                            r[pp].0@,
                                            es0[pp].0@,
                                            es0[q2 - 1].0@,
                                        );
                                    }
                                    assert(es0[q2 - 1].0@ != r[pp].0@);
                                }
                            }
                            assert forall|j: int| 0 <= j < r.len() implies node_wf(
                                (#[trigger] r[j]).1,
                            ) && node_filled(r[j].1) by {
                                if j < pp {
                                    assert(r[j] == es0[j]);
                                } else if j > pp {
                                    assert(r[j] == es0[j - 1]);
                                }
                            }
                            lemma_dir_wf_build(r);
                            lemma_dir_filled_build(r);
                            assert(r.len() >= es0.len() && r.len() >= 1);
                            lemma_dir_need_le(r, need_max(dir_need(es0), suffix.len()));
                            assert forall|b: Seq<u8>|
                                #[trigger] insert_ok(es0, b, join_path(b, suffix)) implies dir_flat(
                                r,
                                b,
                            ) == dir_flat(es0, b).insert(join_path(b, suffix), oid@) by {
                                let target = join_path(b, suffix);
                                assert(node_flat(r[pp].1, join_path(b, r[pp].0@))
                                    =~= Map::<Seq<u8>, Seq<u8>>::empty().insert(target, oid@));
                                lemma_flat_insert_entry(es0, r, b, pp, target, oid@);
                            }
                        }
                    }
                    es
                },
            }
        },
        Some(d) => {
            let head = crate::bytes::subvec(path, from, d);
            let ghost drel = d as int - from as int;
            let ghost rest = path@.skip(d as int + 1);
            proof {
                assert(head@ =~= suffix.take(drel));
                assert(rest =~= suffix.skip(drel + 1));
                assert forall|j: int| 0 <= j < drel implies suffix[j] != 47 by {
                    assert(suffix[j] == path@[from + j]);
                }
                assert(suffix[drel] == path@[d as int]);
                crate::codec::lemma_first_pos_unique(suffix, 47, drel);
                if ins_pre(es0, suffix, oid@) {
                    lemma_valid_path_split(suffix, drel);
                    assert(clean_name(head@));
                    assert(valid_path(rest));
                }
            }
            match find_name(&es, &head) {
                Some(i) => {
                    let ghost ii = i as int;
                    let (nm, node) = es.remove(i);
                    match node {
                        Node::Dir(sub) => {
                            let ghost sub0 = sub@;
                            let sub2 = dir_insert(sub, path, d + 1, oid);
                            es.insert(i, (nm, Node::Dir(sub2)));
                            proof {
                                let r = es@;
                                assert(r =~= es0.update(ii, r[ii])) by {
                                    es0.remove_ensures(ii);
                                    es0.remove(ii).insert_ensures(ii, r[ii]);
                                }
                                assert(r[ii].0@ == es0[ii].0@);
                                if ins_pre(es0, suffix, oid@) {
                                    lemma_dir_clean_at(es0);
                                    lemma_dir_sep_at(es0);
                                    lemma_dir_wf_at(es0);
                                    lemma_dir_filled_at(es0);
                                    assert(node_clean(es0[ii].1));
                                    assert(node_sep(es0[ii].1));
                                    assert(node_wf(es0[ii].1));
                                    assert(node_filled(es0[ii].1));
                                    assert(dir_clean(sub0));
                                    assert(dir_sep(sub0));
                                    assert(dir_wf(sub0));
                                    assert(dir_filled(sub0));
                                    assert(sub0.len() >= 1);
                                    assert(ins_pre(sub0, rest, oid@));
                                    assert forall|j: int| 0 <= j < r.len() implies clean_name(
                                        (#[trigger] r[j]).0@,
                                    ) && node_clean(r[j].1) && node_sep(r[j].1) by {
                                        if j != ii {
                                            assert(r[j] == es0[j]);
                                        }
                                    }
                                    lemma_dir_clean_build(r);
                                    assert forall|p2: int, q2: int|
                                        0 <= p2 < q2 < r.len() implies (#[trigger] r[p2]).0@ != (
                                    #[trigger] r[q2]).0@ by {
                                        assert(r[p2].0@ == es0[p2].0@);
                                        assert(r[q2].0@ == es0[q2].0@);
                                    }
                                    lemma_dir_sep_build(r);
                                    lemma_dir_need_le(es0, dir_need(es0));
                                    assert(node_need(es0[ii].1) == 1 + dir_need(sub0));
                                    assert(node_need(r[ii].1) == 1 + dir_need(sub2@));
                                    assert(rest.len() < suffix.len());
                                    assert forall|j: int| 0 <= j < r.len() implies node_need(
                                        (#[trigger] r[j]).1,
                                    ) <= need_max(dir_need(es0), suffix.len()) by {
                                        if j != ii {
                                            assert(r[j] == es0[j]);
                                        }
                                    }
                                    assert forall|p2: int, q2: int|
                                        0 <= p2 < q2 < r.len() implies lex_lt(
                                        (#[trigger] r[p2]).0@,
                                        (#[trigger] r[q2]).0@,
                                    ) by {
                                        assert(r[p2].0@ == es0[p2].0@);
                                        assert(r[q2].0@ == es0[q2].0@);
                                    }
                                    assert forall|j: int| 0 <= j < r.len() implies node_wf(
                                        (#[trigger] r[j]).1,
                                    ) && node_filled(r[j].1) by {
                                        if j != ii {
                                            assert(r[j] == es0[j]);
                                        } else {
                                            assert(sub2@.len() >= sub0.len());
                                        }
                                    }
                                    lemma_dir_wf_build(r);
                                    lemma_dir_filled_build(r);
                                    assert(r.len() >= es0.len() && r.len() >= 1);
                                    lemma_dir_need_le(r, need_max(dir_need(es0), suffix.len()));
                                    assert forall|b: Seq<u8>|
                                        #[trigger] insert_ok(
                                            es0,
                                            b,
                                            join_path(b, suffix),
                                        ) implies dir_flat(r, b) == dir_flat(es0, b).insert(
                                        join_path(b, suffix),
                                        oid@,
                                    ) by {
                                        let target = join_path(b, suffix);
                                        let jp = join_path(b, es0[ii].0@);
                                        assert(target =~= join_path(jp, rest));
                                        assert(in_keyspace(b, es0[ii].0@, target)) by {
                                            assert(is_prefix_of(jp + seq![47u8], target)) by {
                                                assert(target.subrange(0, jp.len() as int + 1)
                                                    =~= jp + seq![47u8]);
                                            }
                                        }
                                        assert forall|q: Seq<u8>| #[trigger] dir_flat(
                                            sub0,
                                            jp,
                                        ).contains_key(q) implies !dir_prefix_of(q, target)
                                            && !dir_prefix_of(target, q) by {
                                            assert(node_flat(es0[ii].1, jp).contains_key(q));
                                            lemma_node_keys(es0[ii].1, jp);
                                            lemma_dir_flat_local(es0, b, ii, q);
                                            assert(dir_flat(es0, b).contains_key(q));
                                        }
                                        assert(insert_ok(sub0, jp, target));
                                        assert(insert_ok(sub0, jp, join_path(jp, rest)));
                                        assert(dir_flat(sub2@, jp) == dir_flat(sub0, jp).insert(
                                            join_path(jp, rest),
                                            oid@,
                                        ));
                                        assert(node_flat(r[ii].1, join_path(b, r[ii].0@))
                                            == node_flat(es0[ii].1, jp).insert(target, oid@));
                                        lemma_flat_update_entry(es0, r, b, ii, target, oid@);
                                    }
                                }
                            }
                            es
                        },
                        Node::File(f) => {
                            es.insert(i, (nm, Node::File(f)));
                            proof {
                                let r = es@;
                                assert(r =~= es0) by {
                                    es0.remove_ensures(ii);
                                    es0.remove(ii).insert_ensures(ii, r[ii]);
                                }
                                if ins_pre(es0, suffix, oid@) {
                                    assert(dir_clean(r) && dir_sep(r) && dir_wf(r)
                                        && dir_filled(r));
                                    assert(r.len() >= es0.len() && r.len() >= 1);
                                    assert forall|b: Seq<u8>|
                                        #[trigger] insert_ok(
                                            es0,
                                            b,
                                            join_path(b, suffix),
                                        ) implies dir_flat(r, b) == dir_flat(es0, b).insert(
                                        join_path(b, suffix),
                                        oid@,
                                    ) by {
                                        // the path runs through an existing
                                        // file: such a state never satisfies
                                        // the no-collision premise
                                        let target = join_path(b, suffix);
                                        let jp = join_path(b, es0[ii].0@);
                                        lemma_dir_clean_at(es0);
                                        lemma_dir_sep_at(es0);
                                        assert(node_flat(es0[ii].1, jp).contains_key(jp));
                                        lemma_dir_flat_local(es0, b, ii, jp);
                                        assert(dir_flat(es0, b).contains_key(jp));
                                        assert(target =~= join_path(jp, rest));
                                        assert(dir_prefix_of(jp, target)) by {
                                            assert(target.subrange(0, jp.len() as int + 1) =~= jp
                                                + seq![47u8]);
                                        }
                                        assert(false);
                                    }
                                }
                            }
                            es
                        },
                    }
                },
                None => {
                    let empty_dir: Vec<(Vec<u8>, Node)> = Vec::new();
                    let sub2 = dir_insert(empty_dir, path, d + 1, oid);
                    let p = lower_bound(&es, &head);
                    es.insert(p, (head, Node::Dir(sub2)));
                    proof {
                        let r = es@;
                        let pp = p as int;
                        es0.insert_ensures(pp, r[pp]);
                        assert(r == es0.insert(pp, r[pp]));
                        if ins_pre(es0, suffix, oid@) {
                            lemma_dir_clean_at(es0);
                            lemma_dir_sep_at(es0);
                            assert(dir_clean(Seq::<(Vec<u8>, Node)>::empty()));
                            assert(dir_sep(Seq::<(Vec<u8>, Node)>::empty()));
                            assert(dir_wf(Seq::<(Vec<u8>, Node)>::empty()));
                            assert(dir_filled(Seq::<(Vec<u8>, Node)>::empty()));
                            assert(ins_pre(Seq::<(Vec<u8>, Node)>::empty(), rest, oid@));
                            assert(dir_need(Seq::<(Vec<u8>, Node)>::empty()) == 0);
                            assert(dir_need(sub2@) <= rest.len());
                            assert forall|j: int| 0 <= j < r.len() implies clean_name(
                                (#[trigger] r[j]).0@,
                            ) && node_clean(r[j].1) && node_sep(r[j].1) by {
                                if j < pp {
                                    assert(r[j] == es0[j]);
                                } else if j > pp {
                                    assert(r[j] == es0[j - 1]);
                                }
                            }
                            lemma_dir_clean_build(r);
                            assert forall|p2: int, q2: int|
                                0 <= p2 < q2 < r.len() implies (#[trigger] r[p2]).0@ != (
                            #[trigger] r[q2]).0@ by {
                                if p2 < pp {
                                    assert(r[p2] == es0[p2]);
                                }
                                if p2 > pp {
                                    assert(r[p2] == es0[p2 - 1]);
                                }
                                if q2 < pp {
                                    assert(r[q2] == es0[q2]);
                                }
                                if q2 > pp {
                                    assert(r[q2] == es0[q2 - 1]);
                                }
                            }
                            lemma_dir_sep_build(r);
                            lemma_dir_need_le(es0, dir_need(es0));
                            assert(node_need(r[pp].1) == 1 + dir_need(sub2@));
                            assert(rest.len() < suffix.len());
                            assert forall|j: int| 0 <= j < r.len() implies node_need(
                                (#[trigger] r[j]).1,
                            ) <= need_max(dir_need(es0), suffix.len()) by {
                                if j < pp {
                                    assert(r[j] == es0[j]);
                                } else if j > pp {
                                    assert(r[j] == es0[j - 1]);
                                }
                            }
                            lemma_dir_wf_at(es0);
                            lemma_dir_filled_at(es0);
                            assert forall|p2: int, q2: int|
                                0 <= p2 < q2 < r.len() implies lex_lt(
                                (#[trigger] r[p2]).0@,
                                (#[trigger] r[q2]).0@,
                            ) by {
                                if p2 < pp {
                                    assert(r[p2] == es0[p2]);
                                }
                                if p2 > pp {
                                    assert(r[p2] == es0[p2 - 1]);
                                }
                                if q2 < pp {
                                    assert(r[q2] == es0[q2]);
                                }
                                if q2 > pp {
                                    assert(r[q2] == es0[q2 - 1]);
                                }
                                if q2 == pp {
                                    // below the fresh entry: strictly smaller
                                    assert(lex_lt(es0[p2].0@, r[pp].0@));
                                } else if p2 == pp {
                                    // above the fresh entry: strictly larger
                                    assert(!lex_lt(es0[pp].0@, r[pp].0@));
                                    crate::bytes::lemma_lex_le_total(es0[pp].0@, r[pp].0@);
                                    assert(crate::bytes::lex_le(r[pp].0@, es0[pp].0@));
                                    if q2 - 1 > pp {
                                        assert(lex_lt(es0[pp].0@, es0[q2 - 1].0@));
                                        crate::bytes::lemma_lex_le_trans(
                                            r[pp].0@,
                                            es0[pp].0@,
                                            es0[q2 - 1].0@,
                                        );
                                    }
                                    assert(es0[q2 - 1].0@ != r[pp].0@);
                                }
                            }
                            assert forall|j: int| 0 <= j < r.len() implies node_wf(
                                (#[trigger] r[j]).1,
                            ) && node_filled(r[j].1) by {
                                if j < pp {
                                    assert(r[j] == es0[j]);
                                } else if j > pp {
                                    assert(r[j] == es0[j - 1]);
                                }
                            }
                            lemma_dir_wf_build(r);
                            lemma_dir_filled_build(r);
                            assert(r.len() >= es0.len() && r.len() >= 1);
                            lemma_dir_need_le(r, need_max(dir_need(es0), suffix.len()));
                            assert forall|b: Seq<u8>|
                                #[trigger] insert_ok(es0, b, join_path(b, suffix)) implies dir_flat(
                                r,
                                b,
                            ) == dir_flat(es0, b).insert(join_path(b, suffix), oid@) by {
                                let target = join_path(b, suffix);
                                let jp = join_path(b, head@);
                                assert(target =~= join_path(jp, rest));
                                assert(in_keyspace(b, head@, target)) by {
                                    assert(is_prefix_of(jp + seq![47u8], target)) by {
                                        assert(target.subrange(0, jp.len() as int + 1) =~= jp
                                            + seq![47u8]);
                                    }
                                }
                                assert(insert_ok(
                                    Seq::<(Vec<u8>, Node)>::empty(),
                                    jp,
                                    join_path(jp, rest),
                                )) by {
                                    assert(dir_flat(Seq::<(Vec<u8>, Node)>::empty(), jp)
                                        =~= Map::<Seq<u8>, Seq<u8>>::empty());
                                }
                                assert(dir_flat(sub2@, jp) == dir_flat(
                                    Seq::<(Vec<u8>, Node)>::empty(),
                                    jp,
                                ).insert(join_path(jp, rest), oid@));
                                assert(node_flat(r[pp].1, join_path(b, r[pp].0@))
                                    =~= Map::<Seq<u8>, Seq<u8>>::empty().insert(target, oid@));
                                lemma_flat_insert_entry(es0, r, b, pp, target, oid@);
                            }
                        }
                    }
                    es
                },
            }
        },
    }
}

impl Ugit {
    /// Reshape the staged index into a nested directory value. For a
    /// clean index the result represents exactly the index's mapping.
    pub fn build_index_tree_recursive(&self) -> (r: Result<Vec<(Vec<u8>, Node)>, DateErr>)
        requires
            self.inv(),
        ensures
            r is Ok,
            index_clean(self.index_map()) ==> (r matches Ok(es) && dir_flat(es@, Seq::empty())
                == self.index_map() && dir_clean(es@) && dir_sep(es@) && dir_wf(es@)
                && dir_filled(es@) && dir_need(es@) <= usize::MAX as nat),
    {
        proof {
            self.lemma_index_sorted();
            self.lemma_index_char();
            crate::bytemap::lemma_sorted_distinct(self.index_seq());
        }
        let ghost iseq = self.index_seq();
        let mut es: Vec<(Vec<u8>, Node)> = Vec::new();
        let n = self.index_len();
        let mut i: usize = 0;
        proof {
            assert(iseq.take(0) =~= Seq::<(Seq<u8>, Seq<u8>)>::empty());
            if index_clean(self.index_map()) {
                assert(dir_clean(es@));
                assert(dir_sep(es@));
                assert(dir_wf(es@));
                assert(dir_filled(es@));
                assert(dir_flat(es@, Seq::empty()) =~= crate::bytemap::map_of(iseq.take(0)));
            }
        }
        while i < n
            invariant
                self.inv(),
                iseq == self.index_seq(),
                crate::bytemap::keys_distinct(iseq),
                n == iseq.len(),
                i <= n,
                forall|k: Seq<u8>|
                    #[trigger] self.index_map().contains_key(k) <==> exists|q: int|
                        0 <= q < iseq.len() && (#[trigger] iseq[q]).0 == k,
                forall|q: int|
                    0 <= q < iseq.len() ==> self.index_map().contains_key((#[trigger] iseq[q]).0)
                        && self.index_map()[iseq[q].0] == iseq[q].1,
                index_clean(self.index_map()) ==> ({
                    &&& dir_clean(es@)
                    &&& dir_sep(es@)
                    &&& dir_wf(es@)
                    &&& dir_filled(es@)
                    &&& dir_need(es@) <= usize::MAX as nat
                    &&& dir_flat(es@, Seq::empty()) == crate::bytemap::map_of(iseq.take(i as int))
                }),
            decreases n - i,
        {
            let (path, oid) = self.index_entry_at(i);
            let ghost es_before = es@;
            let ghost partial = crate::bytemap::map_of(iseq.take(i as int));
            proof {
                assert((path@, oid@) == iseq[i as int]);
                if index_clean(self.index_map()) {
                    assert(self.index_map().contains_key(path@));
                    assert(valid_path(path@));
                    assert(clean_oid(oid@));
                    assert(path@.skip(0) =~= path@);
                    assert(ins_pre(es@, path@, oid@));
                    // earlier keys never collide with this path
                    assert forall|q2: int| 0 <= q2 < i implies (#[trigger] iseq.take(
                        i as int,
                    )[q2]).0 == iseq[q2].0 by {}
                    crate::bytemap::lemma_map_of_char(iseq.take(i as int));
                    assert(insert_ok(es@, Seq::empty(), join_path(Seq::empty(), path@))) by {
                        assert forall|q: Seq<u8>| #[trigger] dir_flat(
                            es@,
                            Seq::empty(),
                        ).contains_key(q) implies !dir_prefix_of(q, path@) && !dir_prefix_of(
                            path@,
                            q,
                        ) by {
                            assert(partial.contains_key(q));
                            let q2 = choose|q2: int|
                                0 <= q2 < iseq.take(i as int).len() && (#[trigger] iseq.take(
                                    i as int,
                                )[q2]).0 == q;
                            assert(iseq[q2].0 == q);
                            assert(self.index_map().contains_key(q));
                        }
                    }
                }
            }
            if path.len() > 0 {
                es = dir_insert(es, &path, 0, &oid);
                proof {
                    if index_clean(self.index_map()) {
                        assert(dir_flat(es@, Seq::empty()) == dir_flat(
                            es_before,
                            Seq::empty(),
                        ).insert(join_path(Seq::empty(), path@), oid@));
                        assert(iseq.take(i as int + 1).drop_last() =~= iseq.take(i as int));
                        assert(iseq.take(i as int + 1).last() == iseq[i as int]);
                        assert(dir_flat(es@, Seq::empty()) == crate::bytemap::map_of(
                            iseq.take(i as int + 1),
                        ));
                        assert(need_max(dir_need(es_before), path@.len()) <= usize::MAX as nat);
                    }
                }
            } else {
                proof {
                    if index_clean(self.index_map()) {
                        assert(valid_path(path@));
                        assert(false);
                    }
                }
            }
            i += 1;
        }
        proof {
            if index_clean(self.index_map()) {
                assert(iseq.take(n as int) =~= iseq);
                crate::bytemap::lemma_map_of_char(iseq);
                assert(crate::bytemap::map_of(iseq) =~= self.index_map());
            }
        }
        Ok(es)
    }

    /// Write the staged index as a tree into the store and return the
    /// root id. The built tree is checked against the index before
    /// anything is written; a mismatch, an unserialisable name or id,
    /// or unrepresentable nesting is reported without touching the
    /// store.
    pub fn write_tree(&mut self) -> (r: Result<Vec<u8>, DateErr>)
        requires
            old(self).inv(),
        ensures
            final(self).inv(),
            final(self).refs_map() == old(self).refs_map(),
            final(self).index_map() == old(self).index_map(),
            final(self).git_dir_view() == old(self).git_dir_view(),
            digest_injective() ==> preserves_trees(
                old(self).objects_map(),
                final(self).objects_map(),
            ),
            index_clean(old(self).index_map()) ==> r is Ok,
            index_clean(old(self).index_map()) ==> (r matches Ok(o) && exists|es: Seq<(Vec<u8>, Node)>|
                #[trigger] canonical_tree(es, old(self).index_map()) && o@ == sha1_of(dir_text(es))),
            r matches Ok(o) ==> crate::digest::hex_str(o@),
            r matches Ok(o) ==> (digest_injective() ==> flatten_tree(
                final(self).objects_map(),
                o@,
                Seq::empty(),
                usize::MAX as nat,
            ) == Some(old(self).index_map()) && hash_rooted(
                final(self).objects_map(),
                o@,
                usize::MAX as nat,
            )),
            r is Err ==> final(self).objects_map() == old(self).objects_map(),
    {
        proof {
            lemma_preserves_refl(self.objects_map());
        }
        let es = match self.build_index_tree_recursive() {
            Ok(es) => es,
            Err(err) => {
                proof {
                    assert(false);
                }
                return Err(err);
            },
        };
        let mut flat = crate::bytemap::ByteMap::new();
        let base: Vec<u8> = Vec::new();
        dir_to_flat(&es, &base, &mut flat);
        proof {
            assert(flat@ =~= dir_flat(es@, Seq::empty()));
        }
        if !self.index_matches(&flat) {
            proof {
                if index_clean(self.index_map()) {
                    assert(false);
                }
            }
            return Err(DateErr::Other(Vec::new()));
        }
        if !check_clean(&es) {
            proof {
                if index_clean(self.index_map()) {
                    assert(false);
                }
            }
            return Err(DateErr::Other(Vec::new()));
        }
        if !depth_ok(&es, usize::MAX) {
            proof {
                if index_clean(self.index_map()) {
                    assert(false);
                }
            }
            return Err(DateErr::Other(Vec::new()));
        }
        let oid = match self.write_tree_recursive(&es) {
            Ok(o) => o,
            Err(err) => {
                proof {
                    assert(false);
                }
                return Err(err);
            },
        };
        proof {
            if index_clean(old(self).index_map()) {
                assert(canonical_tree(es@, old(self).index_map()) && oid@ == sha1_of(
                    dir_text(es@),
                ));
            }
            if digest_injective() {
                assert(flatten_tree(
                    self.objects_map(),
                    sha1_of(dir_text(es@)),
                    Seq::empty(),
                    usize::MAX as nat,
                ) == Some(dir_flat(es@, Seq::empty())));
            }
        }
        Ok(oid)
    }

    /// Replace the staged index with the expansion of the tree under
    /// `oid`; reports whether the tree could be expanded.
    pub fn read_tree(&mut self, oid: &Vec<u8>) -> (r: bool)
        requires
            old(self).inv(),
        ensures
            final(self).inv(),
            match flatten_tree(old(self).objects_map(), oid@, Seq::empty(), usize::MAX as nat) {
                Some(m) => r == true && final(self).index_map() == m,
                None => r == false && final(self).index_map() == old(self).index_map(),
            },
            final(self).objects_map() == old(self).objects_map(),
            final(self).refs_map() == old(self).refs_map(),
            final(self).git_dir_view() == old(self).git_dir_view(),
    {
        match self.get_tree_in_base(oid) {
            Some(bm) => {
                let w = self.write_index(&bm);
                match w {
                    Ok(_) => true,
                    Err(_) => {
                        proof {
                            assert(false);
                        }
                        true
                    },
                }
            },
            None => false,
        }
    }
}

/// `a` names a directory that `b` lies under.
pub open spec fn dir_prefix_of(a: Seq<u8>, b: Seq<u8>) -> bool {
    is_prefix_of(a + seq![47u8], b)
}

/// A staged path the tree layer represents faithfully: non-empty
/// components joined by single separators, free of newlines.
pub open spec fn valid_path(p: Seq<u8>) -> bool {
    &&& p.len() > 0
    &&& p[0] != 47
    &&& p[p.len() - 1] != 47
    &&& forall|j: int| 0 <= j < p.len() ==> p[j] != 10
    &&& forall|j: int| 0 <= j && j + 1 < p.len() ==> !((#[trigger] p[j]) == 47 && p[j + 1] == 47)
}

/// An index the tree layer represents faithfully: valid paths with
/// serialisable ids, no path naming a directory of another.
pub open spec fn index_clean(m: Map<Seq<u8>, Seq<u8>>) -> bool {
    &&& forall|k: Seq<u8>| #[trigger] m.contains_key(k) ==> valid_path(k) && clean_oid(m[k])
    &&& forall|k1: Seq<u8>, k2: Seq<u8>|
        m.contains_key(k1) && m.contains_key(k2) ==> !(#[trigger] dir_prefix_of(k1, k2))
}

/// Entry names are distinct, at every level.
pub open spec fn node_sep(n: Node) -> bool
    decreases n,
{
    match n {
        Node::File(_) => true,
        Node::Dir(es) => dir_sep(es@),
    }
}

pub open spec fn dir_sep(es: Seq<(Vec<u8>, Node)>) -> bool
    decreases es,
{
    if es.len() == 0 {
        true
    } else {
        (forall|j: int| 1 <= j < es.len() ==> (#[trigger] es[j]).0@ != es[0].0@) && node_sep(
            es[0].1,
        ) && dir_sep(es.skip(1))
    }
}

/// Inserting into a directory at `b` cannot collide with `target`:
/// no present key names a directory of it or lies under it.
pub open spec fn insert_ok(es: Seq<(Vec<u8>, Node)>, b: Seq<u8>, target: Seq<u8>) -> bool {
    forall|q: Seq<u8>|
        #[trigger] dir_flat(es, b).contains_key(q) ==> !dir_prefix_of(q, target)
            && !dir_prefix_of(target, q)
}

/// A key lies in the name's key space at `b`: it is the joined path
/// itself or lies under it.
pub open spec fn in_keyspace(b: Seq<u8>, nm: Seq<u8>, key: Seq<u8>) -> bool {
    key == join_path(b, nm) || dir_prefix_of(join_path(b, nm), key)
}

/// The entries of a directory, read pointwise.
pub proof fn lemma_dir_clean_at(es: Seq<(Vec<u8>, Node)>)
    requires
        dir_clean(es),
    ensures
        forall|i: int|
            0 <= i < es.len() ==> clean_name((#[trigger] es[i]).0@) && node_clean(es[i].1),
    decreases es.len(),
{
    if es.len() > 0 {
        lemma_dir_clean_at(es.skip(1));
        assert forall|i: int| 0 <= i < es.len() implies clean_name((#[trigger] es[i]).0@)
            && node_clean(es[i].1) by {
            if i > 0 {
                assert(es.skip(1)[i - 1] == es[i]);
            }
        }
    }
}

/// Conversely, pointwise cleanliness rebuilds the predicate.
pub proof fn lemma_dir_clean_build(es: Seq<(Vec<u8>, Node)>)
    requires
        forall|i: int|
            0 <= i < es.len() ==> clean_name((#[trigger] es[i]).0@) && node_clean(es[i].1),
    ensures
        dir_clean(es),
    decreases es.len(),
{
    if es.len() > 0 {
        assert forall|i: int| 0 <= i < es.skip(1).len() implies clean_name(
            (#[trigger] es.skip(1)[i]).0@,
        ) && node_clean(es.skip(1)[i].1) by {
            assert(es.skip(1)[i] == es[i + 1]);
        }
        lemma_dir_clean_build(es.skip(1));
    }
}

/// Distinct names, read pairwise.
pub proof fn lemma_dir_sep_at(es: Seq<(Vec<u8>, Node)>)
    requires
        dir_sep(es),
    ensures
        forall|i: int, j: int|
            0 <= i < j < es.len() ==> (#[trigger] es[i]).0@ != (#[trigger] es[j]).0@,
        forall|i: int| 0 <= i < es.len() ==> node_sep((#[trigger] es[i]).1),
    decreases es.len(),
{
    if es.len() > 0 {
        lemma_dir_sep_at(es.skip(1));
        assert forall|i: int, j: int| 0 <= i < j < es.len() implies (#[trigger] es[i]).0@ != (
        #[trigger] es[j]).0@ by {
            if i > 0 {
                assert(es.skip(1)[i - 1] == es[i]);
                assert(es.skip(1)[j - 1] == es[j]);
            } else {
                assert(es[j] == es.skip(1)[j - 1]);
            }
        }
        assert forall|i: int| 0 <= i < es.len() implies node_sep((#[trigger] es[i]).1) by {
            if i > 0 {
                assert(es.skip(1)[i - 1] == es[i]);
            }
        }
    }
}

/// Conversely, pairwise distinctness and child distinctness rebuild
/// the predicate.
pub proof fn lemma_dir_sep_build(es: Seq<(Vec<u8>, Node)>)
    requires
        forall|i: int, j: int|
            0 <= i < j < es.len() ==> (#[trigger] es[i]).0@ != (#[trigger] es[j]).0@,
        forall|i: int| 0 <= i < es.len() ==> node_sep((#[trigger] es[i]).1),
    ensures
        dir_sep(es),
    decreases es.len(),
{
    if es.len() > 0 {
        assert forall|i: int, j: int|
            0 <= i < j < es.skip(1).len() implies (#[trigger] es.skip(1)[i]).0@ != (#[trigger] es.skip(
            1,
        )[j]).0@ by {
            assert(es.skip(1)[i] == es[i + 1]);
            assert(es.skip(1)[j] == es[j + 1]);
        }
        assert forall|i: int| 0 <= i < es.skip(1).len() implies node_sep(
            (#[trigger] es.skip(1)[i]).1,
        ) by {
            assert(es.skip(1)[i] == es[i + 1]);
        }
        lemma_dir_sep_build(es.skip(1));
        assert forall|j: int| 1 <= j < es.len() implies (#[trigger] es[j]).0@ != es[0].0@ by {}
    }
}

/// Every key under a node at a non-empty path is the path itself or
/// lies under it as a directory.
pub proof fn lemma_node_keys(n: Node, path: Seq<u8>)
    requires
        path.len() > 0,
        node_clean(n),
    ensures
        forall|key: Seq<u8>|
            #[trigger] node_flat(n, path).contains_key(key) ==> key == path || dir_prefix_of(
                path,
                key,
            ),
    decreases n,
{
    match n {
        Node::File(_) => {},
        Node::Dir(es) => {
            lemma_dir_keys_entries(es@, path);
            assert forall|key: Seq<u8>| #[trigger] node_flat(n, path).contains_key(key) implies key
                == path || dir_prefix_of(path, key) by {
                assert(dir_flat(es@, path).contains_key(key));
                let i = choose|i: int|
                    0 <= i < es@.len() && in_keyspace(path, (#[trigger] es@[i]).0@, key);
                let jp = join_path(path, es@[i].0@);
                assert(jp =~= path + seq![47u8] + es@[i].0@);
                assert(is_prefix_of(path + seq![47u8], jp)) by {
                    assert(jp.subrange(0, path.len() as int + 1) =~= path + seq![47u8]);
                }
                if key == jp {
                } else {
                    assert(is_prefix_of(jp, jp + seq![47u8])) by {
                        assert((jp + seq![47u8]).subrange(0, jp.len() as int) =~= jp);
                    }
                    lemma_prefix_trans(path + seq![47u8], jp, jp + seq![47u8]);
                    lemma_prefix_trans(path + seq![47u8], jp + seq![47u8], key);
                }
            }
        },
    }
}

/// Every key of a directory's flat mapping lies in the key space of
/// one of its entries.
pub proof fn lemma_dir_keys_entries(es: Seq<(Vec<u8>, Node)>, b: Seq<u8>)
    requires
        dir_clean(es),
    ensures
        forall|key: Seq<u8>|
            #[trigger] dir_flat(es, b).contains_key(key) ==> exists|i: int|
                0 <= i < es.len() && in_keyspace(b, (#[trigger] es[i]).0@, key),
    decreases es,
{
    if es.len() > 0 {
        let jp = join_path(b, es[0].0@);
        assert(clean_name(es[0].0@) && node_clean(es[0].1));
        assert(jp.len() > 0);
        lemma_node_keys(es[0].1, jp);
        lemma_dir_keys_entries(es.skip(1), b);
        assert forall|key: Seq<u8>| #[trigger] dir_flat(es, b).contains_key(key) implies exists|i: int|
            0 <= i < es.len() && in_keyspace(b, (#[trigger] es[i]).0@, key) by {
            if node_flat(es[0].1, jp).contains_key(key) {
                assert(in_keyspace(b, es[0].0@, key));
                assert(0 <= 0 < es.len() && in_keyspace(b, es[0].0@, key));
            } else {
                assert(dir_flat(es.skip(1), b).contains_key(key));
                let i = choose|i: int|
                    0 <= i < es.skip(1).len() && in_keyspace(b, (#[trigger] es.skip(1)[i]).0@, key);
                assert(es.skip(1)[i] == es[i + 1]);
                assert(0 <= i + 1 < es.len() && in_keyspace(b, es[i + 1].0@, key));
            }
        }
    }
}

/// Two clean names whose key spaces share a key are the same name:
/// key spaces of distinct entries never meet.
pub proof fn lemma_keyspace_disjoint(b: Seq<u8>, n1: Seq<u8>, n2: Seq<u8>, key: Seq<u8>)
    requires
        clean_name(n1),
        clean_name(n2),
        in_keyspace(b, n1, key),
        in_keyspace(b, n2, key),
    ensures
        n1 == n2,
{
    let bp: Seq<u8> = if b.len() == 0 {
        Seq::empty()
    } else {
        b + seq![47u8]
    };
    assert(join_path(b, n1) =~= bp + n1);
    assert(join_path(b, n2) =~= bp + n2);
    // each side pins the key's bytes over its name, and what follows
    assert forall|idx: int| 0 <= idx < n1.len() implies key[bp.len() + idx] == n1[idx] by {
        if key == join_path(b, n1) {
        } else {
            assert(key.subrange(0, bp.len() as int + n1.len() as int + 1) =~= (bp + n1
                + seq![47u8]).subrange(0, bp.len() as int + n1.len() as int + 1)) by {
                assert(key.subrange(0, (join_path(b, n1) + seq![47u8]).len() as int)
                    == join_path(b, n1) + seq![47u8]);
            }
            assert(key[bp.len() + idx] == (join_path(b, n1) + seq![47u8])[bp.len() + idx]);
        }
    }
    assert forall|idx: int| 0 <= idx < n2.len() implies key[bp.len() + idx] == n2[idx] by {
        if key == join_path(b, n2) {
        } else {
            assert(key[bp.len() + idx] == (join_path(b, n2) + seq![47u8])[bp.len() + idx]);
        }
    }
    let l1 = bp.len() + n1.len();
    let l2 = bp.len() + n2.len();
    assert(key.len() >= l1 && (key.len() == l1 || key[l1 as int] == 47)) by {
        if key == join_path(b, n1) {
        } else {
            assert(key[l1 as int] == (join_path(b, n1) + seq![47u8])[l1 as int]);
        }
    }
    assert(key.len() >= l2 && (key.len() == l2 || key[l2 as int] == 47)) by {
        if key == join_path(b, n2) {
        } else {
            assert(key[l2 as int] == (join_path(b, n2) + seq![47u8])[l2 as int]);
        }
    }
    if n1.len() == n2.len() {
        assert(n1 =~= n2);
    } else if n1.len() < n2.len() {
        assert(key.len() > l1);
        assert(key[l1 as int] == 47);
        assert(n2[n1.len() as int] == 47);
        assert(false);
    } else {
        assert(key.len() > l2);
        assert(key[l2 as int] == 47);
        assert(n1[n2.len() as int] == 47);
        assert(false);
    }
}

/// Inside an entry's key space, the directory's mapping is exactly
/// that entry's mapping.
pub proof fn lemma_dir_flat_local(es: Seq<(Vec<u8>, Node)>, b: Seq<u8>, i: int, key: Seq<u8>)
    requires
        dir_clean(es),
        dir_sep(es),
        0 <= i < es.len(),
        in_keyspace(b, es[i].0@, key),
    ensures
        dir_flat(es, b).contains_key(key) == node_flat(es[i].1, join_path(b, es[i].0@)).contains_key(
            key,
        ),
        node_flat(es[i].1, join_path(b, es[i].0@)).contains_key(key) ==> dir_flat(es, b)[key]
            == node_flat(es[i].1, join_path(b, es[i].0@))[key],
    decreases es,
{
    lemma_dir_clean_at(es);
    lemma_dir_sep_at(es);
    if i == 0 {
        // the remaining entries never hold a key of this entry's space
        lemma_dir_keys_entries(es.skip(1), b);
        if dir_flat(es.skip(1), b).contains_key(key) {
            let j = choose|j: int|
                0 <= j < es.skip(1).len() && in_keyspace(b, (#[trigger] es.skip(1)[j]).0@, key);
            assert(es.skip(1)[j] == es[j + 1]);
            lemma_keyspace_disjoint(b, es[0].0@, es[j + 1].0@, key);
        }
    } else {
        // the head entry never holds a key of this entry's space
        let jp0 = join_path(b, es[0].0@);
        lemma_node_keys(es[0].1, jp0);
        if node_flat(es[0].1, jp0).contains_key(key) {
            assert(in_keyspace(b, es[0].0@, key));
            lemma_keyspace_disjoint(b, es[0].0@, es[i].0@, key);
        }
        assert(es.skip(1)[i - 1] == es[i]);
        lemma_dir_flat_local(es.skip(1), b, i - 1, key);
    }
}

/// The fuel bound of a directory, read pointwise.
pub proof fn lemma_dir_need_le(es: Seq<(Vec<u8>, Node)>, x: nat)
    ensures
        (dir_need(es) <= x) == (forall|i: int|
            0 <= i < es.len() ==> node_need((#[trigger] es[i]).1) <= x),
    decreases es,
{
    if es.len() > 0 {
        lemma_dir_need_le(es.skip(1), x);
        if dir_need(es) <= x {
            assert forall|i: int| 0 <= i < es.len() implies node_need((#[trigger] es[i]).1)
                <= x by {
                if i > 0 {
                    assert(es.skip(1)[i - 1] == es[i]);
                }
            }
        }
        if forall|i: int| 0 <= i < es.len() ==> node_need((#[trigger] es[i]).1) <= x {
            assert forall|i: int| 0 <= i < es.skip(1).len() implies node_need(
                (#[trigger] es.skip(1)[i]).1,
            ) <= x by {
                assert(es.skip(1)[i] == es[i + 1]);
            }
        }
    }
}

/// Splitting a valid path at its first separator leaves a clean head
/// component and a valid remainder.
pub proof fn lemma_valid_path_split(p: Seq<u8>, d: int)
    requires
        valid_path(p),
        crate::codec::first_pos(p, 47) == Some(d),
    ensures
        1 <= d < p.len() - 1,
        clean_name(p.take(d)),
        valid_path(p.skip(d + 1)),
{
    crate::codec::lemma_first_pos(p, 47);
    assert(p[d] == 47);
    assert(d >= 1);
    assert(d != p.len() - 1);
    assert(d + 1 < p.len());
    assert(p[d + 1] != 47);
    let head = p.take(d);
    assert forall|j: int| 0 <= j < head.len() implies head[j] != 47 && head[j] != 10 by {
        assert(head[j] == p[j]);
    }
    let rest = p.skip(d + 1);
    assert(rest.len() > 0);
    assert(rest[0] == p[d + 1]);
    assert(rest[rest.len() - 1] == p[p.len() - 1]);
    assert forall|j: int| 0 <= j < rest.len() implies rest[j] != 10 by {
        assert(rest[j] == p[d + 1 + j]);
    }
    assert forall|j: int| 0 <= j && j + 1 < rest.len() implies !((#[trigger] rest[j]) == 47
        && rest[j + 1] == 47) by {
        assert(rest[j] == p[d + 1 + j]);
        assert(rest[j + 1] == p[d + 1 + j + 1]);
    }
}

/// Replacing one entry whose new mapping is the old one plus one
/// binding inside its own key space shifts the whole directory's
/// mapping by exactly that binding.
proof fn lemma_flat_update_entry(
    es: Seq<(Vec<u8>, Node)>,
    r: Seq<(Vec<u8>, Node)>,
    b: Seq<u8>,
    i: int,
    target: Seq<u8>,
    v: Seq<u8>,
)
    requires
        dir_clean(es),
        dir_sep(es),
        dir_clean(r),
        dir_sep(r),
        0 <= i < es.len(),
        r.len() == es.len(),
        forall|j: int| 0 <= j < es.len() && j != i ==> #[trigger] r[j] == es[j],
        r[i].0@ == es[i].0@,
        in_keyspace(b, es[i].0@, target),
        node_flat(r[i].1, join_path(b, r[i].0@)) == node_flat(
            es[i].1,
            join_path(b, es[i].0@),
        ).insert(target, v),
    ensures
        dir_flat(r, b) == dir_flat(es, b).insert(target, v),
{
    lemma_dir_clean_at(es);
    lemma_dir_sep_at(es);
    lemma_dir_clean_at(r);
    lemma_dir_sep_at(r);
    lemma_dir_keys_entries(es, b);
    lemma_dir_keys_entries(r, b);
    let nm = es[i].0@;
    let jp = join_path(b, nm);
    assert(dir_flat(r, b) =~= dir_flat(es, b).insert(target, v)) by {
        assert forall|q: Seq<u8>|
            #[trigger] dir_flat(r, b).contains_key(q) == dir_flat(es, b).insert(
                target,
                v,
            ).contains_key(q) && (dir_flat(r, b).contains_key(q) ==> dir_flat(r, b)[q] == dir_flat(
            es,
            b,
        ).insert(target, v)[q]) by {
            if in_keyspace(b, nm, q) {
                lemma_dir_flat_local(es, b, i, q);
                lemma_dir_flat_local(r, b, i, q);
            } else {
                // the key belongs to some other entry, identical on
                // both sides, or to none
                if dir_flat(es, b).contains_key(q) {
                    let j = choose|j: int|
                        0 <= j < es.len() && in_keyspace(b, (#[trigger] es[j]).0@, q);
                    if j == i {
                        assert(in_keyspace(b, nm, q));
                    }
                    lemma_dir_flat_local(es, b, j, q);
                    lemma_dir_flat_local(r, b, j, q);
                }
                if dir_flat(r, b).contains_key(q) {
                    let j = choose|j: int|
                        0 <= j < r.len() && in_keyspace(b, (#[trigger] r[j]).0@, q);
                    if j == i {
                        assert(in_keyspace(b, nm, q));
                    }
                    lemma_dir_flat_local(es, b, j, q);
                    lemma_dir_flat_local(r, b, j, q);
                }
                assert(q != target);
            }
        }
    }
}

/// Adding one fresh entry holding a single binding inside its own key
/// space adds exactly that binding to the directory's mapping.
proof fn lemma_flat_insert_entry(
    es: Seq<(Vec<u8>, Node)>,
    r: Seq<(Vec<u8>, Node)>,
    b: Seq<u8>,
    pos: int,
    target: Seq<u8>,
    v: Seq<u8>,
)
    requires
        dir_clean(es),
        dir_sep(es),
        dir_clean(r),
        dir_sep(r),
        0 <= pos <= es.len(),
        r.len() == es.len() + 1,
        forall|j: int| 0 <= j < pos ==> #[trigger] r[j] == es[j],
        forall|j: int| pos < j < r.len() ==> #[trigger] r[j] == es[j - 1],
        forall|j: int| 0 <= j < es.len() ==> (#[trigger] es[j]).0@ != r[pos].0@,
        in_keyspace(b, r[pos].0@, target),
        node_flat(r[pos].1, join_path(b, r[pos].0@)) == Map::<Seq<u8>, Seq<u8>>::empty().insert(
            target,
            v,
        ),
    ensures
        dir_flat(r, b) == dir_flat(es, b).insert(target, v),
{
    lemma_dir_clean_at(es);
    lemma_dir_sep_at(es);
    lemma_dir_clean_at(r);
    lemma_dir_sep_at(r);
    lemma_dir_keys_entries(es, b);
    lemma_dir_keys_entries(r, b);
    let nm = r[pos].0@;
    assert(dir_flat(r, b) =~= dir_flat(es, b).insert(target, v)) by {
        assert forall|q: Seq<u8>|
            #[trigger] dir_flat(r, b).contains_key(q) == dir_flat(es, b).insert(
                target,
                v,
            ).contains_key(q) && (dir_flat(r, b).contains_key(q) ==> dir_flat(r, b)[q] == dir_flat(
            es,
            b,
        ).insert(target, v)[q]) by {
            if in_keyspace(b, nm, q) {
                lemma_dir_flat_local(r, b, pos, q);
                // no old entry shares this key space
                if dir_flat(es, b).contains_key(q) {
                    let j = choose|j: int|
                        0 <= j < es.len() && in_keyspace(b, (#[trigger] es[j]).0@, q);
                    lemma_keyspace_disjoint(b, es[j].0@, nm, q);
                }
            } else {
                assert(q != target);
                if dir_flat(es, b).contains_key(q) {
                    let j = choose|j: int|
                        0 <= j < es.len() && in_keyspace(b, (#[trigger] es[j]).0@, q);
                    let j2: int = if j < pos {
                        j
                    } else {
                        j + 1
                    };
                    assert(r[j2] == es[j]);
                    lemma_dir_flat_local(es, b, j, q);
                    lemma_dir_flat_local(r, b, j2, q);
                }
                if dir_flat(r, b).contains_key(q) {
                    let j2 = choose|j2: int|
                        0 <= j2 < r.len() && in_keyspace(b, (#[trigger] r[j2]).0@, q);
                    if j2 == pos {
                        assert(in_keyspace(b, nm, q));
                    }
                    let j: int = if j2 < pos {
                        j2
                    } else {
                        j2 - 1
                    };
                    assert(r[j2] == es[j]);
                    lemma_dir_flat_local(es, b, j, q);
                    lemma_dir_flat_local(r, b, j2, q);
                }
            }
        }
    }
}

/// Sorted order, read pairwise.
pub proof fn lemma_dir_wf_at(es: Seq<(Vec<u8>, Node)>)
    requires
        dir_wf(es),
    ensures
        forall|i: int, j: int|
            0 <= i < j < es.len() ==> lex_lt((#[trigger] es[i]).0@, (#[trigger] es[j]).0@),
        forall|i: int| 0 <= i < es.len() ==> node_wf((#[trigger] es[i]).1),
    decreases es.len(),
{
    if es.len() > 0 {
        lemma_dir_wf_at(es.skip(1));
        assert forall|i: int, j: int| 0 <= i < j < es.len() implies lex_lt(
            (#[trigger] es[i]).0@,
            (#[trigger] es[j]).0@,
        ) by {
            if i > 0 {
                assert(es.skip(1)[i - 1] == es[i]);
                assert(es.skip(1)[j - 1] == es[j]);
            } else {
                assert(es[j] == es.skip(1)[j - 1]);
            }
        }
        assert forall|i: int| 0 <= i < es.len() implies node_wf((#[trigger] es[i]).1) by {
            if i > 0 {
                assert(es.skip(1)[i - 1] == es[i]);
            }
        }
    }
}

/// Conversely, pairwise order rebuilds the predicate.
pub proof fn lemma_dir_wf_build(es: Seq<(Vec<u8>, Node)>)
    requires
        forall|i: int, j: int|
            0 <= i < j < es.len() ==> lex_lt((#[trigger] es[i]).0@, (#[trigger] es[j]).0@),
        forall|i: int| 0 <= i < es.len() ==> node_wf((#[trigger] es[i]).1),
    ensures
        dir_wf(es),
    decreases es.len(),
{
    if es.len() > 0 {
        assert forall|i: int, j: int|
            0 <= i < j < es.skip(1).len() implies lex_lt(
            (#[trigger] es.skip(1)[i]).0@,
            (#[trigger] es.skip(1)[j]).0@,
        ) by {
            assert(es.skip(1)[i] == es[i + 1]);
            assert(es.skip(1)[j] == es[j + 1]);
        }
        assert forall|i: int| 0 <= i < es.skip(1).len() implies node_wf(
            (#[trigger] es.skip(1)[i]).1,
        ) by {
            assert(es.skip(1)[i] == es[i + 1]);
        }
        lemma_dir_wf_build(es.skip(1));
    }
}

/// Filledness, read pointwise.
pub proof fn lemma_dir_filled_at(es: Seq<(Vec<u8>, Node)>)
    requires
        dir_filled(es),
    ensures
        forall|i: int| 0 <= i < es.len() ==> node_filled((#[trigger] es[i]).1),
    decreases es.len(),
{
    if es.len() > 0 {
        lemma_dir_filled_at(es.skip(1));
        assert forall|i: int| 0 <= i < es.len() implies node_filled((#[trigger] es[i]).1) by {
            if i > 0 {
                assert(es.skip(1)[i - 1] == es[i]);
            }
        }
    }
}

/// Conversely, pointwise filledness rebuilds the predicate.
pub proof fn lemma_dir_filled_build(es: Seq<(Vec<u8>, Node)>)
    requires
        forall|i: int| 0 <= i < es.len() ==> node_filled((#[trigger] es[i]).1),
    ensures
        dir_filled(es),
    decreases es.len(),
{
    if es.len() > 0 {
        assert forall|i: int| 0 <= i < es.skip(1).len() implies node_filled(
            (#[trigger] es.skip(1)[i]).1,
        ) by {
            assert(es.skip(1)[i] == es[i + 1]);
        }
        lemma_dir_filled_build(es.skip(1));
    }
}

/// A filled node's mapping holds at least one key.
proof fn lemma_filled_nonempty(n: Node, p: Seq<u8>)
    requires
        node_filled(n),
    ensures
        exists|q: Seq<u8>| #[trigger] node_flat(n, p).contains_key(q),
    decreases n,
{
    match n {
        Node::File(_) => {
            assert(node_flat(n, p).contains_key(p));
        },
        Node::Dir(es) => {
            lemma_dir_filled_at(es@);
            let jp = join_path(p, es@[0].0@);
            lemma_filled_nonempty(es@[0].1, jp);
            let q = choose|q: Seq<u8>| #[trigger] node_flat(es@[0].1, jp).contains_key(q);
            assert(dir_flat(es@, p).contains_key(q));
            assert(node_flat(n, p).contains_key(q));
        },
    }
}

/// The serialised entries, read pointwise.
pub proof fn lemma_dir_entries_at(es: Seq<(Vec<u8>, Node)>)
    ensures
        dir_entries(es).len() == es.len(),
        forall|i: int|
            0 <= i < es.len() ==> #[trigger] dir_entries(es)[i] == (
                node_kind(es[i].1),
                node_oid(es[i].1),
                es[i].0@,
            ),
    decreases es,
{
    if es.len() > 0 {
        lemma_dir_entries_at(es.skip(1));
        assert forall|i: int| 0 <= i < es.len() implies #[trigger] dir_entries(es)[i] == (
            node_kind(es[i].1),
            node_oid(es[i].1),
            es[i].0@,
        ) by {
            if i > 0 {
                assert(dir_entries(es)[i] == dir_entries(es.skip(1))[i - 1]);
                assert(es.skip(1)[i - 1] == es[i]);
            }
        }
    }
}

/// Two strictly sorted name sequences with the same members are the
/// same sequence.
proof fn lemma_sorted_names_unique(s1: Seq<Seq<u8>>, s2: Seq<Seq<u8>>)
    requires
        forall|i: int, j: int| 0 <= i < j < s1.len() ==> lex_lt(#[trigger] s1[i], #[trigger] s1[j]),
        forall|i: int, j: int| 0 <= i < j < s2.len() ==> lex_lt(#[trigger] s2[i], #[trigger] s2[j]),
        forall|nm: Seq<u8>| #[trigger] s1.contains(nm) <==> s2.contains(nm),
    ensures
        s1 == s2,
    decreases s1.len(),
{
    if s1.len() == 0 {
        if s2.len() > 0 {
            assert(s2.contains(s2[0]));
            assert(s1.contains(s2[0]));
            let i = choose|i: int| 0 <= i < s1.len() && s1[i] == s2[0];
            assert(false);
        }
        assert(s1 =~= s2);
    } else if s2.len() == 0 {
        assert(s1.contains(s1[0]));
        assert(s2.contains(s1[0]));
        let i = choose|i: int| 0 <= i < s2.len() && s2[i] == s1[0];
        assert(false);
    } else {
        // the heads are both the least member, so they agree
        assert(s1.contains(s1[0]));
        assert(s2.contains(s1[0]));
        let j = choose|j: int| 0 <= j < s2.len() && s2[j] == s1[0];
        assert(s2.contains(s2[0]));
        assert(s1.contains(s2[0]));
        let k = choose|k: int| 0 <= k < s1.len() && s1[k] == s2[0];
        if j > 0 {
            assert(lex_lt(s2[0], s1[0]));
            if k > 0 {
                assert(lex_lt(s1[0], s2[0]));
                crate::bytes::lemma_lex_le_antisym(s1[0], s2[0]);
            }
            assert(false);
        }
        assert(s1[0] == s2[0]);
        let t1 = s1.skip(1);
        let t2 = s2.skip(1);
        assert forall|i: int, j2: int| 0 <= i < j2 < t1.len() implies lex_lt(
            #[trigger] t1[i],
            #[trigger] t1[j2],
        ) by {
            assert(t1[i] == s1[i + 1]);
            assert(t1[j2] == s1[j2 + 1]);
        }
        assert forall|i: int, j2: int| 0 <= i < j2 < t2.len() implies lex_lt(
            #[trigger] t2[i],
            #[trigger] t2[j2],
        ) by {
            assert(t2[i] == s2[i + 1]);
            assert(t2[j2] == s2[j2 + 1]);
        }
        assert forall|nm: Seq<u8>| #[trigger] t1.contains(nm) <==> t2.contains(nm) by {
            if t1.contains(nm) {
                let i = choose|i: int| 0 <= i < t1.len() && t1[i] == nm;
                assert(s1[i + 1] == nm);
                assert(s1.contains(nm));
                assert(lex_lt(s1[0], nm));
                assert(s2.contains(nm));
                let j2 = choose|j2: int| 0 <= j2 < s2.len() && s2[j2] == nm;
                if j2 == 0 {
                    assert(nm == s2[0]);
                    assert(nm == s1[0]);
                    assert(false);
                }
                assert(t2[j2 - 1] == s2[j2]);
                assert(t2.contains(nm));
            }
            if t2.contains(nm) {
                let i = choose|i: int| 0 <= i < t2.len() && t2[i] == nm;
                assert(s2[i + 1] == nm);
                assert(s2.contains(nm));
                assert(lex_lt(s2[0], nm));
                assert(s1.contains(nm));
                let j2 = choose|j2: int| 0 <= j2 < s1.len() && s1[j2] == nm;
                if j2 == 0 {
                    assert(nm == s1[0]);
                    assert(nm == s2[0]);
                    assert(false);
                }
                assert(t1[j2 - 1] == s1[j2]);
                assert(t1.contains(nm));
            }
        }
        lemma_sorted_names_unique(t1, t2);
        assert(s1 =~= s2) by {
            assert forall|i: int| 0 <= i < s1.len() implies s1[i] == s2[i] by {
                if i > 0 {
                    assert(t1[i - 1] == s1[i]);
                    assert(t2[i - 1] == s2[i]);
                }
            }
        }
    }
}

/// Keys of a directory level sit strictly below its base.
proof fn lemma_dir_keys_longer(es: Seq<(Vec<u8>, Node)>, jp: Seq<u8>)
    requires
        dir_clean(es),
    ensures
        forall|q: Seq<u8>| #[trigger] dir_flat(es, jp).contains_key(q) ==> q.len() > jp.len(),
{
    lemma_dir_clean_at(es);
    lemma_dir_keys_entries(es, jp);
    assert forall|q: Seq<u8>| #[trigger] dir_flat(es, jp).contains_key(q) implies q.len()
        > jp.len() by {
        let i = choose|i: int| 0 <= i < es.len() && in_keyspace(jp, (#[trigger] es[i]).0@, q);
        let sub_jp = join_path(jp, es[i].0@);
        assert(sub_jp.len() > jp.len());
        if q == sub_jp {
        } else {
            assert(is_prefix_of(sub_jp + seq![47u8], q));
        }
    }
}

/// Two sorted, clean, filled trees standing for the same flat mapping
/// serialise identically: the representation is canonical, so the
/// written root id is a function of the staged mapping alone.
pub proof fn lemma_canonical_tree(es1: Seq<(Vec<u8>, Node)>, es2: Seq<(Vec<u8>, Node)>, b: Seq<u8>)
    requires
        dir_wf(es1),
        dir_clean(es1),
        dir_sep(es1),
        dir_filled(es1),
        dir_wf(es2),
        dir_clean(es2),
        dir_sep(es2),
        dir_filled(es2),
        dir_flat(es1, b) == dir_flat(es2, b),
    ensures
        dir_entries(es1) == dir_entries(es2),
    decreases es1,
{
    lemma_dir_clean_at(es1);
    lemma_dir_sep_at(es1);
    lemma_dir_wf_at(es1);
    lemma_dir_filled_at(es1);
    lemma_dir_clean_at(es2);
    lemma_dir_sep_at(es2);
    lemma_dir_wf_at(es2);
    lemma_dir_filled_at(es2);
    lemma_dir_keys_entries(es1, b);
    lemma_dir_keys_entries(es2, b);
    let n1seq = Seq::new(es1.len(), |i: int| es1[i].0@);
    let n2seq = Seq::new(es2.len(), |i: int| es2[i].0@);
    // each side's names appear on the other: every entry owns a key
    assert forall|nm: Seq<u8>| #[trigger] n1seq.contains(nm) implies n2seq.contains(nm) by {
        let i = choose|i: int| 0 <= i < n1seq.len() && n1seq[i] == nm;
        assert(es1[i].0@ == nm);
        let jp = join_path(b, nm);
        lemma_filled_nonempty(es1[i].1, jp);
        let q = choose|q: Seq<u8>| #[trigger] node_flat(es1[i].1, jp).contains_key(q);
        lemma_node_keys(es1[i].1, jp);
        assert(in_keyspace(b, nm, q));
        lemma_dir_flat_local(es1, b, i, q);
        assert(dir_flat(es1, b).contains_key(q));
        assert(dir_flat(es2, b).contains_key(q));
        let j = choose|j: int| 0 <= j < es2.len() && in_keyspace(b, (#[trigger] es2[j]).0@, q);
        lemma_keyspace_disjoint(b, nm, es2[j].0@, q);
        assert(n2seq[j] == nm);
    }
    assert forall|nm: Seq<u8>| #[trigger] n2seq.contains(nm) implies n1seq.contains(nm) by {
        let i = choose|i: int| 0 <= i < n2seq.len() && n2seq[i] == nm;
        assert(es2[i].0@ == nm);
        let jp = join_path(b, nm);
        lemma_filled_nonempty(es2[i].1, jp);
        let q = choose|q: Seq<u8>| #[trigger] node_flat(es2[i].1, jp).contains_key(q);
        lemma_node_keys(es2[i].1, jp);
        assert(in_keyspace(b, nm, q));
        lemma_dir_flat_local(es2, b, i, q);
        assert(dir_flat(es1, b).contains_key(q));
        let j = choose|j: int| 0 <= j < es1.len() && in_keyspace(b, (#[trigger] es1[j]).0@, q);
        lemma_keyspace_disjoint(b, nm, es1[j].0@, q);
        assert(n1seq[j] == nm);
    }
    assert forall|nm: Seq<u8>| #[trigger] n1seq.contains(nm) <==> n2seq.contains(nm) by {}
    lemma_sorted_names_unique(n1seq, n2seq);
    assert(es1.len() == es2.len());
    lemma_dir_entries_at(es1);
    lemma_dir_entries_at(es2);
    assert forall|i: int| 0 <= i < es1.len() implies #[trigger] dir_entries(es1)[i]
        == dir_entries(es2)[i] by {
        assert(n1seq[i] == n2seq[i]);
        let nm = es1[i].0@;
        assert(es2[i].0@ == nm);
        let jp = join_path(b, nm);
        assert(node_flat(es1[i].1, jp) =~= node_flat(es2[i].1, jp)) by {
            lemma_node_keys(es1[i].1, jp);
            lemma_node_keys(es2[i].1, jp);
            assert forall|q: Seq<u8>|
                #[trigger] node_flat(es1[i].1, jp).contains_key(q) == node_flat(
                    es2[i].1,
                    jp,
                ).contains_key(q) && (node_flat(es1[i].1, jp).contains_key(q) ==> node_flat(
                es1[i].1,
                jp,
            )[q] == node_flat(es2[i].1, jp)[q]) by {
                if node_flat(es1[i].1, jp).contains_key(q) || node_flat(es2[i].1, jp).contains_key(
                    q,
                ) {
                    assert(in_keyspace(b, nm, q));
                    lemma_dir_flat_local(es1, b, i, q);
                    lemma_dir_flat_local(es2, b, i, q);
                }
            }
        }
        match es1[i].1 {
            Node::File(o1) => {
                assert(node_flat(es1[i].1, jp).contains_key(jp));
                match es2[i].1 {
                    Node::File(o2) => {
                        assert(node_flat(es1[i].1, jp)[jp] == o1@);
                        assert(node_flat(es2[i].1, jp)[jp] == o2@);
                        assert(o1@ == o2@);
                    },
                    Node::Dir(sub2) => {
                        assert(node_clean(es2[i].1));
                        assert(dir_clean(sub2@));
                        assert(node_flat(es1[i].1, jp) == node_flat(es2[i].1, jp));
                        assert(node_flat(es2[i].1, jp).contains_key(jp));
                        assert(dir_flat(sub2@, jp).contains_key(jp));
                        lemma_dir_keys_longer(sub2@, jp);
                        assert(false);
                    },
                }
            },
            Node::Dir(sub1) => {
                match es2[i].1 {
                    Node::File(o2) => {
                        assert(node_flat(es2[i].1, jp).contains_key(jp));
                        assert(node_clean(es1[i].1));
                        assert(dir_clean(sub1@));
                        assert(node_flat(es1[i].1, jp) == node_flat(es2[i].1, jp));
                        assert(node_flat(es1[i].1, jp).contains_key(jp));
                        assert(dir_flat(sub1@, jp).contains_key(jp));
                        lemma_dir_keys_longer(sub1@, jp);
                        assert(false);
                    },
                    Node::Dir(sub2) => {
                        lemma_canonical_tree(sub1@, sub2@, jp);
                        assert(dir_text(sub1@) == dir_text(sub2@));
                        assert(node_oid(es1[i].1) == node_oid(es2[i].1));
                    },
                }
            },
        }
    }
    assert(dir_entries(es1) =~= dir_entries(es2));
}

/// The canonical tree of a flat mapping: sorted, clean, distinct,
/// every directory non-empty, and representing exactly `m`.
pub open spec fn canonical_tree(es: Seq<(Vec<u8>, Node)>, m: Map<Seq<u8>, Seq<u8>>) -> bool {
    dir_wf(es) && dir_clean(es) && dir_sep(es) && dir_filled(es) && dir_flat(es, Seq::empty()) == m
}

/// Any two canonical trees of the same mapping serialise to the same
/// text, so equal indexes always hash to equal root ids.
pub proof fn lemma_canonical_tree_text(
    es1: Seq<(Vec<u8>, Node)>,
    es2: Seq<(Vec<u8>, Node)>,
    m: Map<Seq<u8>, Seq<u8>>,
)
    requires
        canonical_tree(es1, m),
        canonical_tree(es2, m),
    ensures
        dir_text(es1) == dir_text(es2),
{
    lemma_canonical_tree(es1, es2, Seq::empty());
}

} // verus!
