//! The document tree and the key-path resolution over it. A document is a
//! table of entries whose values are nested tables or rendered leaves; a key
//! path addresses a node by descending table by table, and only a leaf at the
//! end of the path counts as found.
use vstd::prelude::*;

use crate::text::lemma_dv_index;

verus! {

/// A parsed configuration document node: a leaf holds the canonical textual
/// rendering of a non-table value, a table holds its entries in order.
pub enum Doc {
    Leaf(String),
    Table(Vec<(String, Doc)>),
}

/// The mathematical shape of a document node: leaves as character sequences,
/// tables as ordered key/value entry sequences.
pub enum DocV {
    Leaf(Seq<char>),
    Table(Seq<(Seq<char>, DocV)>),
}

impl Doc {
    /// The node's mathematical shape.
    pub open spec fn dv(self) -> DocV
        decreases self,
    {
        match self {
            Doc::Leaf(s) => DocV::Leaf(s@),
            Doc::Table(es) => DocV::Table(dv_entries(es@)),
        }
    }
}

/// The shapes of a table's entries, in order.
pub open spec fn dv_entries(es: Seq<(String, Doc)>) -> Seq<(Seq<char>, DocV)>
    decreases es,
{
    if es.len() == 0 {
        Seq::empty()
    } else {
        seq![(es[0].0@, es[0].1.dv())] + dv_entries(es.drop_first())
    }
}

/// The shapes of a table's entries index to the shape of each entry.
pub proof fn lemma_dv_entries_index(es: Seq<(String, Doc)>)
    ensures
        dv_entries(es).len() == es.len(),
        forall|k: int|
            0 <= k < es.len() ==> #[trigger] dv_entries(es)[k] == (es[k].0@, es[k].1.dv()),
    decreases es.len(),
{
    if es.len() > 0 {
        lemma_dv_entries_index(es.drop_first());
        assert forall|k: int| 0 <= k < es.len() implies #[trigger] dv_entries(es)[k] == (
            es[k].0@,
            es[k].1.dv(),
        ) by {
            if k > 0 {
                assert(dv_entries(es)[k] == dv_entries(es.drop_first())[k - 1]);
                assert(es.drop_first()[k - 1] == es[k]);
            }
        }
    }
}

/// The value of the first entry whose key is `key`, if any.
pub open spec fn lookup_dv(es: Seq<(Seq<char>, DocV)>, key: Seq<char>) -> Option<DocV>
    decreases es.len(),
{
    if es.len() == 0 {
        None
    } else if es[0].0 == key {
        Some(es[0].1)
    } else {
        lookup_dv(es.drop_first(), key)
    }
}

/// Where no entry carries `key`, the lookup is absent.
proof fn lemma_lookup_absent(es: Seq<(Seq<char>, DocV)>, key: Seq<char>)
    requires
        forall|k: int| 0 <= k < es.len() ==> (#[trigger] es[k]).0 != key,
    ensures
        lookup_dv(es, key) is None,
    decreases es.len(),
{
    if es.len() > 0 {
        assert(forall|k: int|
            0 <= k < es.drop_first().len() ==> #[trigger] es.drop_first()[k] == es[k + 1]);
        lemma_lookup_absent(es.drop_first(), key);
    }
}

/// Where `j` is the first index whose key is `key`, the lookup is that
/// entry's value.
proof fn lemma_lookup_found(es: Seq<(Seq<char>, DocV)>, key: Seq<char>, j: int)
    requires
        0 <= j < es.len(),
        es[j].0 == key,
        forall|k: int| 0 <= k < j ==> (#[trigger] es[k]).0 != key,
    ensures
        lookup_dv(es, key) == Some(es[j].1),
    decreases j,
{
    if j > 0 {
        assert(forall|k: int|
            0 <= k < es.drop_first().len() ==> #[trigger] es.drop_first()[k] == es[k + 1]);
        lemma_lookup_found(es.drop_first(), key, j - 1);
    }
}

/// The node a path addresses, descending from the entries of a table: the
/// table itself for the empty path; otherwise the first segment is looked up
/// and the rest of the path is followed. A missing key, or a segment below a
/// leaf, addresses nothing.
pub open spec fn resolve_node(es: Seq<(Seq<char>, DocV)>, path: Seq<Seq<char>>) -> Option<DocV>
    decreases path.len(),
{
    if path.len() == 0 {
        Some(DocV::Table(es))
    } else {
        match lookup_dv(es, path[0]) {
            Option::None => None,
            Option::Some(DocV::Table(inner)) => resolve_node(inner, path.skip(1)),
            Option::Some(DocV::Leaf(s)) => if path.len() == 1 {
                Some(DocV::Leaf(s))
            } else {
                None
            },
        }
    }
}

/// The rendered value a path resolves to: the leaf it addresses, absent where
/// the path addresses nothing — or addresses a table, which is never
/// rendered.
pub open spec fn resolve_value(es: Seq<(Seq<char>, DocV)>, path: Seq<Seq<char>>) -> Option<
    Seq<char>,
> {
    match resolve_node(es, path) {
        Option::Some(DocV::Leaf(s)) => Some(s),
        _ => None,
    }
}

/// A path whose final segment names a table resolves to no value, even
/// though the node it addresses exists in the document.
pub proof fn lemma_table_resolves_absent(es: Seq<(Seq<char>, DocV)>, path: Seq<Seq<char>>)
    requires
        resolve_node(es, path) matches Some(d) && d is Table,
    ensures
        resolve_value(es, path) is None,
{
}

/// The first entry of `es` whose key equals `key`, by linear scan.
fn lookup_entry<'a>(es: &'a Vec<(String, Doc)>, key: &String) -> (r: Option<&'a Doc>)
    ensures
        match r {
            Option::Some(d) => lookup_dv(dv_entries(es@), key@) == Some(d.dv()),
            Option::None => lookup_dv(dv_entries(es@), key@) is None,
        },
{
    proof {
        lemma_dv_entries_index(es@);
    }
    let mut j: usize = 0;
    while j < es.len()
        invariant
            j <= es@.len(),
            forall|k: int| 0 <= k < j ==> (#[trigger] es@[k]).0@ != key@,
        decreases es@.len() - j,
    {
        let e = &es[j];
        if e.0 == *key {
            proof {
                lemma_dv_entries_index(es@);
                lemma_lookup_found(dv_entries(es@), key@, j as int);
            }
            return Some(&es[j].1);
        }
        j += 1;
    }
    proof {
        lemma_dv_entries_index(es@);
        assert forall|k: int| 0 <= k < dv_entries(es@).len() implies (#[trigger] dv_entries(
            es@,
        )[k]).0 != key@ by {
            assert(dv_entries(es@)[k] == (es@[k].0@, es@[k].1.dv()));
        }
        lemma_lookup_absent(dv_entries(es@), key@);
    }
    None
}

/// The rendered value at `key_path` inside the table `table`, found by
/// descending one path segment at a time, exactly as `resolve_value` states.
pub fn get_toml_value(table: &Vec<(String, Doc)>, key_path: &Vec<String>) -> (r: Option<String>)
    ensures
        match r {
            Option::Some(v) => resolve_value(dv_entries(table@), key_path.deep_view()) == Some(
                v@,
            ),
            Option::None => resolve_value(dv_entries(table@), key_path.deep_view()) is None,
        },
{
    let ghost path = key_path.deep_view();
    proof {
        lemma_dv_index(key_path);
        assert(path.skip(0) =~= path);
    }
    let mut cur: &Vec<(String, Doc)> = table;
    let mut i: usize = 0;
    while i < key_path.len()
        invariant
            i <= key_path@.len(),
            path == key_path.deep_view(),
            path.len() == key_path@.len(),
            forall|k: int| 0 <= k < path.len() ==> path[k] == (#[trigger] key_path@[k])@,
            resolve_node(dv_entries(table@), path) == resolve_node(
                dv_entries(cur@),
                path.skip(i as int),
            ),
        decreases key_path@.len() - i,
    {
        let found = lookup_entry(cur, &key_path[i]);
        proof {
            assert(path.skip(i as int)[0] == path[i as int]);
        }
        match found {
            Option::None => {
                return None;
            },
            Option::Some(d) => {
                match d {
                    Doc::Table(inner) => {
                        proof {
                            assert(path.skip(i as int).skip(1) =~= path.skip(i + 1));
                        }
                        cur = inner;
                    },
                    Doc::Leaf(s) => {
                        if i + 1 == key_path.len() {
                            return Some(s.clone());
                        } else {
                            return None;
                        }
                    },
                }
            },
        }
        i += 1;
    }
    proof {
        assert(path.skip(path.len() as int) =~= Seq::<Seq<char>>::empty());
    }
    None
}

} // verus!
