//! Hierarchical tags: the tag forest and the bookkeeping around file tags.

use vstd::prelude::*;

use crate::order::{is_index_permutation, permuted, sorted_order, sorted_stably};
use crate::error::{not_found, not_found_text, AppError};
use crate::search::{integer_params, param_views, placeholders, push_placeholders, ParamView, Statement};
use crate::sync::engine::{file_name, last_component};
use crate::text::{chars_of, join, join_strings, push_signed_decimal, signed_decimal, string_views};

verus! {

/// A tag as stored: `parent_id` links it under another tag.
#[derive(Clone, Debug, PartialEq, Eq)]
pub struct Tag {
    pub id: i64,
    pub name: String,
    pub color: String,
    pub parent_id: Option<i64>,
    pub description: Option<String>,
    pub created_at: String,
}

/// A tag with the nodes of its child tags.
#[derive(Debug, PartialEq, Eq)]
pub struct TagNode {
    pub id: i64,
    pub name: String,
    pub color: String,
    pub parent_id: Option<i64>,
    pub description: Option<String>,
    pub created_at: String,
    pub children: Vec<TagNode>,
}

/// A tag and the trees of its children.
pub struct TagTree {
    pub tag: Tag,
    pub children: Seq<TagTree>,
}

pub open spec fn node_tag(n: TagNode) -> Tag {
    Tag {
        id: n.id,
        name: n.name,
        color: n.color,
        parent_id: n.parent_id,
        description: n.description,
        created_at: n.created_at,
    }
}

/// The tree a node stands for.
pub open spec fn node_tree(n: TagNode) -> TagTree
    decreases n,
{
    TagTree {
        tag: node_tag(n),
        children: Seq::new(n.children@.len(), |i: int| if 0 <= i < n.children@.len() { node_tree(n.children@[i]) } else { TagTree { tag: node_tag(n), children: Seq::empty() } }),
    }
}

/// The tags whose parent is `id`, in input order.
pub open spec fn children_of(flat: Seq<Tag>, id: i64) -> Seq<Tag>
    decreases flat.len(),
{
    if flat.len() == 0 {
        Seq::empty()
    } else if flat.last().parent_id == Some(id) {
        children_of(flat.drop_last(), id).push(flat.last())
    } else {
        children_of(flat.drop_last(), id)
    }
}

/// The tags without a parent, in input order.
pub open spec fn roots_of(flat: Seq<Tag>) -> Seq<Tag>
    decreases flat.len(),
{
    if flat.len() == 0 {
        Seq::empty()
    } else if flat.last().parent_id is None {
        roots_of(flat.drop_last()).push(flat.last())
    } else {
        roots_of(flat.drop_last())
    }
}

/// The parent links that occur among the tags.
pub open spec fn parent_links(flat: Seq<Tag>) -> Set<Option<i64>> {
    flat.map_values(|t: Tag| t.parent_id).to_set()
}

pub open spec fn as_links(used: Set<i64>) -> Set<Option<i64>> {
    Set::new(|o: Option<i64>| o is Some && used.contains(o->0))
}

/// How many parents still have their children to hand out.
pub open spec fn pending(flat: Seq<Tag>, used: Set<i64>) -> nat {
    parent_links(flat).difference(as_links(used)).len()
}

pub proof fn lemma_pending_insert(flat: Seq<Tag>, used: Set<i64>, x: i64)
    requires
        !used.contains(x),
        parent_links(flat).contains(Some(x)),
    ensures
        pending(flat, used.insert(x)) < pending(flat, used),
{
    let p = parent_links(flat);
    vstd::seq_lib::seq_to_set_is_finite(flat.map_values(|t: Tag| t.parent_id));
    let d = p.difference(as_links(used));
    vstd::set_lib::lemma_len_subset(d, p);
    assert(p.difference(as_links(used.insert(x))) =~= d.remove(Some(x)));
    assert(d.contains(Some(x)));
}

pub proof fn lemma_pending_union(flat: Seq<Tag>, used: Set<i64>, more: Set<i64>)
    ensures
        pending(flat, more.union(used)) <= pending(flat, used),
{
    let p = parent_links(flat);
    vstd::seq_lib::seq_to_set_is_finite(flat.map_values(|t: Tag| t.parent_id));
    let d = p.difference(as_links(used));
    vstd::set_lib::lemma_len_subset(d, p);
    vstd::set_lib::lemma_len_subset(p.difference(as_links(more.union(used))), d);
}

/// Builds the trees of `tags` in order. The children of a tag are the tags whose
/// parent is its id; the children under one id are handed out once, to the first
/// tag with that id met depth first. `used` holds the ids already served.
pub open spec fn grow(flat: Seq<Tag>, tags: Seq<Tag>, used: Set<i64>) -> (Seq<TagTree>, Set<i64>)
    decreases pending(flat, used), tags.len(),
{
    if tags.len() == 0 {
        (Seq::empty(), used)
    } else {
        let t = tags[0];
        let (kids, used1) = if !used.contains(t.id) && parent_links(flat).contains(Some(t.id)) {
            proof {
                lemma_pending_insert(flat, used, t.id);
            }
            grow(flat, children_of(flat, t.id), used.insert(t.id))
        } else {
            (Seq::empty(), used)
        };
        proof {
            lemma_pending_union(flat, used, used1);
        }
        let (rest, used2) = grow(flat, tags.drop_first(), used1.union(used));
        (seq![TagTree { tag: t, children: kids }] + rest, used2)
    }
}

/// The tag forest: the trees of the parentless tags, in input order.
pub open spec fn tag_forest(flat: Seq<Tag>) -> Seq<TagTree> {
    grow(flat, roots_of(flat), Set::empty()).0
}

/// The trees the nodes stand for.
pub open spec fn node_trees(nodes: Seq<TagNode>) -> Seq<TagTree> {
    Seq::new(nodes.len(), |i: int| node_tree(nodes[i]))
}

/// The tags at the given positions.
pub open spec fn pick(flat: Seq<Tag>, idxs: Seq<usize>) -> Seq<Tag> {
    idxs.map_values(|k: usize| flat[k as int])
}

pub proof fn lemma_children_link(flat: Seq<Tag>, x: i64)
    ensures
        children_of(flat, x).len() > 0 <==> parent_links(flat).contains(Some(x)),
    decreases flat.len(),
{
    let f = |t: Tag| t.parent_id;
    if flat.len() > 0 {
        let u = flat.drop_last();
        lemma_children_link(u, x);
        if parent_links(flat).contains(Some(x)) {
            let i = choose|i: int| 0 <= i < flat.map_values(f).len() && flat.map_values(f)[i] == Some(x);
            if i < u.len() {
                assert(u.map_values(f)[i] == Some(x));
                assert(parent_links(u).contains(Some(x)));
            }
        }
        if parent_links(u).contains(Some(x)) {
            let i = choose|i: int| 0 <= i < u.map_values(f).len() && u.map_values(f)[i] == Some(x);
            assert(flat.map_values(f)[i] == Some(x));
        }
        if flat.last().parent_id == Some(x) {
            assert(flat.map_values(f)[flat.len() - 1] == Some(x));
        }
    } else {
        assert(!parent_links(flat).contains(Some(x)));
    }
}

impl Tag {
    /// A field-by-field copy of the tag.
    pub fn duplicate(&self) -> (r: Tag)
        ensures
            r == *self,
    {
        let description = match &self.description {
            Some(d) => Some(d.clone()),
            None => None,
        };
        Tag {
            id: self.id,
            name: self.name.clone(),
            color: self.color.clone(),
            parent_id: self.parent_id,
            description,
            created_at: self.created_at.clone(),
        }
    }
}

fn holds_id(used: &Vec<i64>, x: i64) -> (b: bool)
    ensures
        b == used@.to_set().contains(x),
{
    for i in 0..used.len()
        invariant
            forall|k: int| 0 <= k < i ==> used@[k] != x,
    {
        if used[i] == x {
            assert(used@.contains(x));
            return true;
        }
    }
    false
}

/// Positions of the tags whose parent is `id`.
fn child_indices(flat: &Vec<Tag>, id: i64) -> (v: Vec<usize>)
    ensures
        forall|k: int| 0 <= k < v@.len() ==> v@[k] < flat@.len(),
        pick(flat@, v@) == children_of(flat@, id),
{
    let mut v: Vec<usize> = Vec::new();
    for j in 0..flat.len()
        invariant
            forall|k: int| 0 <= k < v@.len() ==> v@[k] < flat@.len(),
            pick(flat@, v@) == children_of(flat@.take(j as int), id),
    {
        assert(flat@.take(j + 1).drop_last() =~= flat@.take(j as int));
        if flat[j].parent_id == Some(id) {
            v.push(j);
            assert(pick(flat@, v@) =~= children_of(flat@.take(j as int), id).push(flat@[j as int]));
        }
    }
    assert(flat@.take(flat@.len() as int) =~= flat@);
    v
}

/// Positions of the tags without a parent.
fn root_indices(flat: &Vec<Tag>) -> (v: Vec<usize>)
    ensures
        forall|k: int| 0 <= k < v@.len() ==> v@[k] < flat@.len(),
        pick(flat@, v@) == roots_of(flat@),
{
    let mut v: Vec<usize> = Vec::new();
    for j in 0..flat.len()
        invariant
            forall|k: int| 0 <= k < v@.len() ==> v@[k] < flat@.len(),
            pick(flat@, v@) == roots_of(flat@.take(j as int)),
    {
        assert(flat@.take(j + 1).drop_last() =~= flat@.take(j as int));
        if flat[j].parent_id.is_none() {
            v.push(j);
            assert(pick(flat@, v@) =~= roots_of(flat@.take(j as int)).push(flat@[j as int]));
        }
    }
    assert(flat@.take(flat@.len() as int) =~= flat@);
    v
}

fn grow_nodes(flat: &Vec<Tag>, idxs: &Vec<usize>, used_in: Vec<i64>) -> (r: (Vec<TagNode>, Vec<i64>))
    requires
        forall|k: int| 0 <= k < idxs@.len() ==> idxs@[k] < flat@.len(),
    ensures
        node_trees(r.0@) == grow(flat@, pick(flat@, idxs@), used_in@.to_set()).0,
        r.1@.to_set() == grow(flat@, pick(flat@, idxs@), used_in@.to_set()).1,
        used_in@.to_set().subset_of(r.1@.to_set()),
    decreases pending(flat@, used_in@.to_set()), idxs@.len(),
{
    let mut used = used_in;
    let ghost u0 = used@.to_set();
    let ghost tags = pick(flat@, idxs@);
    let mut nodes: Vec<TagNode> = Vec::new();
    assert(tags.skip(0) =~= tags);
    assert(node_trees(nodes@) + grow(flat@, tags, u0).0 =~= grow(flat@, tags, u0).0);
    for i in 0..idxs.len()
        invariant
            tags == pick(flat@, idxs@),
            u0 == used_in@.to_set(),
            forall|k: int| 0 <= k < idxs@.len() ==> idxs@[k] < flat@.len(),
            u0.subset_of(used@.to_set()),
            pending(flat@, used@.to_set()) <= pending(flat@, u0),
            grow(flat@, tags, u0).0 == node_trees(nodes@) + grow(flat@, tags.skip(i as int), used@.to_set()).0,
            grow(flat@, tags, u0).1 == grow(flat@, tags.skip(i as int), used@.to_set()).1,
    {
        let t = &flat[idxs[i]];
        let ghost ui = used@.to_set();
        let ghost rest_tags = tags.skip(i as int);
        assert(rest_tags[0] == *t);
        assert(rest_tags.drop_first() =~= tags.skip(i + 1));
        let cidx = child_indices(flat, t.id);
        let ghost cond = !ui.contains(t.id) && parent_links(flat@).contains(Some(t.id));
        proof {
            lemma_children_link(flat@, t.id);
        }
        let kids = if !holds_id(&used, t.id) && cidx.len() > 0 {
            proof {
                lemma_pending_insert(flat@, ui, t.id);
            }
            let ghost prev = used@;
            used.push(t.id);
            proof {
                assert(used@.to_set() =~= ui.insert(t.id)) by {
                    assert forall|a: i64| used@.to_set().contains(a) == ui.insert(t.id).contains(a) by {
                        if a == t.id {
                            assert(used@[used@.len() - 1] == a);
                        } else if ui.contains(a) {
                            assert(prev.to_set().contains(a));
                            let k = choose|k: int| 0 <= k < prev.len() && prev[k] == a;
                            assert(used@[k] == a);
                        } else if used@.contains(a) {
                            let k = choose|k: int| 0 <= k < used@.len() && used@[k] == a;
                            assert(prev[k] == a);
                        }
                    }
                }
            }
            assert(pending(flat@, used@.to_set()) < pending(flat@, u0));
            let (k, u) = grow_nodes(flat, &cidx, used);
            used = u;
            k
        } else {
            Vec::new()
        };
        let ghost used1 = used@.to_set();
        proof {
            assert(used1.union(ui) =~= used1);
            lemma_pending_union(flat@, ui, used1);
            assert(ui.subset_of(used1));
            if !cond {
                assert(node_trees(kids@) =~= Seq::<TagTree>::empty());
            }
        }
        let description = match &t.description {
            Some(d) => Some(d.clone()),
            None => None,
        };
        let node = TagNode {
            id: t.id,
            name: t.name.clone(),
            color: t.color.clone(),
            parent_id: t.parent_id,
            description,
            created_at: t.created_at.clone(),
            children: kids,
        };
        let ghost before = nodes@;
        proof {
            assert(node_tag(node) == *t);
            assert(node_tree(node).children =~= node_trees(node.children@));
        }
        nodes.push(node);
        proof {
            assert(node_trees(nodes@) =~= node_trees(before).push(node_tree(node)));
            assert(node_trees(nodes@) + grow(flat@, tags.skip(i + 1), used1).0 =~= node_trees(before) + grow(flat@, rest_tags, ui).0);
        }
    }
    assert(tags.skip(idxs@.len() as int) =~= Seq::<Tag>::empty());
    assert(node_trees(nodes@) + grow(flat@, tags.skip(idxs@.len() as int), used@.to_set()).0 =~= node_trees(nodes@));
    (nodes, used)
}

/// Builds the tag forest: the trees of the parentless tags in input order, each
/// tag holding the trees of the tags whose parent it is.
pub fn build_tree(flat: Vec<Tag>) -> (forest: Vec<TagNode>)
    ensures
        node_trees(forest@) == tag_forest(flat@),
{
    let roots = root_indices(&flat);
    let used: Vec<i64> = Vec::new();
    assert(used@.to_set() =~= Set::<i64>::empty());
    grow_nodes(&flat, &roots, used).0
}

/// The tags at the tops of the trees.
pub open spec fn top_tags(ts: Seq<TagTree>) -> Seq<Tag> {
    ts.map_values(|t: TagTree| t.tag)
}

/// Every node of the tree either has no children or has as children exactly the
/// tags whose parent it is, in input order.
pub open spec fn linked(flat: Seq<Tag>, tree: TagTree) -> bool
    decreases tree,
{
    &&& (tree.children.len() == 0 || top_tags(tree.children) == children_of(flat, tree.tag.id))
    &&& forall|i: int| 0 <= i < tree.children.len() ==> linked(flat, #[trigger] tree.children[i])
}

pub proof fn lemma_grow_shape(flat: Seq<Tag>, tags: Seq<Tag>, used: Set<i64>)
    ensures
        top_tags(grow(flat, tags, used).0) == tags,
        forall|i: int| 0 <= i < tags.len() ==> linked(flat, #[trigger] grow(flat, tags, used).0[i]),
    decreases pending(flat, used), tags.len(),
{
    if tags.len() > 0 {
        let t = tags[0];
        let cond = !used.contains(t.id) && parent_links(flat).contains(Some(t.id));
        let (kids, used1) = if cond {
            lemma_pending_insert(flat, used, t.id);
            lemma_grow_shape(flat, children_of(flat, t.id), used.insert(t.id));
            grow(flat, children_of(flat, t.id), used.insert(t.id))
        } else {
            (Seq::empty(), used)
        };
        lemma_pending_union(flat, used, used1);
        lemma_grow_shape(flat, tags.drop_first(), used1.union(used));
        let rest = grow(flat, tags.drop_first(), used1.union(used)).0;
        let tree = TagTree { tag: t, children: kids };
        assert(grow(flat, tags, used).0 == seq![tree] + rest);
        if cond {
            assert(top_tags(kids) == children_of(flat, t.id));
            assert(forall|i: int| 0 <= i < kids.len() ==> linked(flat, #[trigger] kids[i]));
            assert(linked(flat, TagTree { tag: t, children: kids }));
        } else {
            assert(kids.len() == 0);
            assert(linked(flat, TagTree { tag: t, children: kids }));
        }
        assert(tree.children == kids);
        assert(tree.children.len() == 0 || top_tags(tree.children) == children_of(flat, tree.tag.id));
        assert(forall|i: int| 0 <= i < tree.children.len() ==> linked(flat, #[trigger] tree.children[i]));
        assert(linked(flat, tree)) by {
            reveal_with_fuel(linked, 2);
        }
        assert forall|i: int| 0 <= i < tags.len() implies #[trigger] top_tags(seq![tree] + rest)[i] == tags[i] by {
            if i > 0 {
                assert((seq![tree] + rest)[i] == rest[i - 1]);
                assert(top_tags(rest)[i - 1] == tags.drop_first()[i - 1]);
            }
        }
        assert(top_tags(seq![tree] + rest) =~= tags);
        assert forall|i: int| 0 <= i < tags.len() implies linked(flat, #[trigger] grow(flat, tags, used).0[i]) by {
            if i > 0 {
                assert((seq![tree] + rest)[i] == rest[i - 1]);
            }
        }
    } else {
        assert(top_tags(grow(flat, tags, used).0) =~= tags);
    }
}

/// Law: the tops of the forest are the parentless tags in input order, and every
/// node of it either has no children or has exactly its child tags, in input order.
pub proof fn law_forest_shape(flat: Seq<Tag>)
    ensures
        top_tags(tag_forest(flat)) == roots_of(flat),
        forall|i: int| 0 <= i < tag_forest(flat).len() ==> linked(flat, #[trigger] tag_forest(flat)[i]),
{
    lemma_grow_shape(flat, roots_of(flat), Set::empty());
}

pub open spec fn name_keys(tags: Seq<Tag>) -> Seq<Seq<char>> {
    tags.map_values(|t: Tag| t.name@)
}

/// `out` holds the tags of `rows` ordered by name (code point order), tags with
/// equal names in their input order.
pub open spec fn ordered_by_name(out: Seq<Tag>, rows: Seq<Tag>) -> bool {
    exists|p: Seq<usize>|
        #![trigger permuted(out, rows, p)]
        is_index_permutation(p, rows.len()) && sorted_stably(name_keys(rows), p, false) && permuted(out, rows, p)
}

/// Lists the tags ordered by name.
pub fn list_tags(rows: Vec<Tag>) -> (tags: Vec<Tag>)
    ensures
        ordered_by_name(tags@, rows@),
{
    let mut keys: Vec<Vec<char>> = Vec::new();
    for i in 0..rows.len()
        invariant
            keys@.len() == i,
            forall|k: int| 0 <= k < i ==> #[trigger] keys@[k]@ == rows@[k].name@,
    {
        keys.push(chars_of(rows[i].name.as_str()));
    }
    assert(keys@.map_values(|k: Vec<char>| k@) =~= name_keys(rows@));
    let order = sorted_order(&keys, false);
    let mut tags: Vec<Tag> = Vec::new();
    for j in 0..order.len()
        invariant
            is_index_permutation(order@, rows@.len()),
            tags@.len() == j,
            forall|k: int| 0 <= k < j ==> #[trigger] tags@[k] == rows@[order@[k] as int],
    {
        tags.push(rows[order[j]].duplicate());
    }
    assert(permuted(tags@, rows@, order@));
    tags
}

/// The tag forest of all tags: the tags are ordered by name, then arranged as in
/// `tag_forest`.
pub fn get_tag_tree(rows: Vec<Tag>) -> (forest: Vec<TagNode>)
    ensures
        exists|sorted: Seq<Tag>| ordered_by_name(sorted, rows@) && node_trees(forest@) == tag_forest(sorted),
{
    let sorted = list_tags(rows);
    let ghost s = sorted@;
    let forest = build_tree(sorted);
    assert(ordered_by_name(s, rows@) && node_trees(forest@) == tag_forest(s));
    forest
}

/// A tag attached to a file, with the tag's name and color.
#[derive(Clone, Debug, PartialEq, Eq)]
pub struct FileTagRecord {
    pub file_id: i64,
    pub tag_id: i64,
    pub tagged_at: i64,
    pub note: Option<String>,
    pub tag_name: String,
    pub tag_color: String,
}

/// An update that changed no row means the tag does not exist.
pub fn check_tag_updated(id: i64, rows_changed: usize) -> (r: Result<(), AppError>)
    ensures
        rows_changed == 0 ==> (r matches Err(AppError::Other(m)) && m@ == not_found_text("Tag"@, id)),
        rows_changed != 0 ==> r is Ok,
{
    if rows_changed == 0 {
        Err(not_found("Tag", id))
    } else {
        Ok(())
    }
}

/// The full-text entry of a file: its file name, and the names of its tags
/// separated by single spaces.
pub fn search_entry(relative_path: &str, tag_names: &Vec<String>) -> (r: (String, String))
    ensures
        r.0@ == last_component(relative_path@),
        r.1@ == join(string_views(tag_names@), " "@),
{
    (file_name(relative_path), join_strings(tag_names, " "))
}

/// The parent link of the first tag with id `y`; none when no tag has that id.
pub open spec fn parent_link(flat: Seq<Tag>, y: i64) -> Option<i64> {
    if exists|i: int| 0 <= i < flat.len() && #[trigger] flat[i].id == y && forall|j: int| 0 <= j < i ==> flat[j].id != y {
        flat[choose|i: int| 0 <= i < flat.len() && #[trigger] flat[i].id == y && forall|j: int| 0 <= j < i ==> flat[j].id != y].parent_id
    } else {
        None
    }
}

/// `y` and its ancestors, nearest first, following at most `m` parent links.
pub open spec fn chain_ids(flat: Seq<Tag>, y: i64, m: nat) -> Seq<i64>
    decreases m,
{
    if m == 0 {
        seq![y]
    } else {
        match parent_link(flat, y) {
            Some(p) => seq![y] + chain_ids(flat, p, (m - 1) as nat),
            None => seq![y],
        }
    }
}

/// The chains of the given tags, each followed up to as many links as there are
/// tags (enough to reach the root of any tag of the forest), one after another.
pub open spec fn chains(flat: Seq<Tag>, direct: Seq<i64>) -> Seq<i64>
    decreases direct.len(),
{
    if direct.len() == 0 {
        Seq::empty()
    } else {
        chains(flat, direct.drop_last()) + chain_ids(flat, direct.last(), flat.len())
    }
}

/// The names of the tags among `ts`, in order, whose id is among `ids`.
pub open spec fn names_of_ids(ts: Seq<Tag>, ids: Seq<i64>) -> Seq<Seq<char>>
    decreases ts.len(),
{
    if ts.len() == 0 {
        Seq::empty()
    } else {
        let prev = names_of_ids(ts.drop_last(), ids);
        if ids.contains(ts.last().id) { prev.push(ts.last().name@) } else { prev }
    }
}

/// The parent link of the first tag with id `y`.
fn find_parent(flat: &Vec<Tag>, y: i64) -> (r: Option<i64>)
    ensures
        r == parent_link(flat@, y),
{
    for i in 0..flat.len()
        invariant
            forall|j: int| 0 <= j < i ==> flat@[j].id != y,
    {
        if flat[i].id == y {
            proof {
                let w = i as int;
                assert(0 <= w < flat@.len() && flat@[w].id == y && forall|j: int| 0 <= j < w ==> flat@[j].id != y);
                let c = choose|c: int| 0 <= c < flat@.len() && #[trigger] flat@[c].id == y && forall|j: int| 0 <= j < c ==> flat@[j].id != y;
                if c < w {
                    assert(flat@[c].id != y);
                }
                if c > w {
                    assert(flat@[w].id != y);
                }
                assert(c == w);
            }
            return flat[i].parent_id;
        }
    }
    None
}

/// `y` and its ancestors, nearest first, following at most as many parent links
/// as there are tags.
fn ancestor_chain(flat: &Vec<Tag>, y: i64) -> (r: Vec<i64>)
    ensures
        r@ == chain_ids(flat@, y, flat@.len()),
{
    let n = flat.len();
    let mut acc: Vec<i64> = Vec::new();
    let mut cur = y;
    let mut k: usize = 0;
    loop
        invariant_except_break
            k <= n,
            n == flat@.len(),
            acc@ + chain_ids(flat@, cur, (n - k) as nat) == chain_ids(flat@, y, n as nat),
        ensures
            acc@ == chain_ids(flat@, y, n as nat),
        decreases n - k,
    {
        let ghost before = acc@;
        acc.push(cur);
        if k == n {
            assert(acc@ =~= before + seq![cur]);
            break;
        }
        match find_parent(flat, cur) {
            None => {
                assert(acc@ =~= before + seq![cur]);
                break;
            },
            Some(p) => {
                assert(chain_ids(flat@, cur, (n - k) as nat) == seq![cur] + chain_ids(flat@, p, (n - k - 1) as nat));
                assert(acc@ + chain_ids(flat@, p, (n - k - 1) as nat) =~= before + (seq![cur] + chain_ids(flat@, p, (n - k - 1) as nat)));
                cur = p;
                k = k + 1;
            },
        }
    }
    acc
}

/// The names a file's full-text entry lists for its tags: the names of the tags
/// it carries and of all their ancestors, each tag once, in the order of `flat`
/// (the tags as stored).
pub fn indexed_tag_names(flat: &Vec<Tag>, direct: &Vec<i64>) -> (names: Vec<String>)
    ensures
        string_views(names@) == names_of_ids(flat@, chains(flat@, direct@)),
{
    let mut reached: Vec<i64> = Vec::new();
    for i in 0..direct.len()
        invariant
            reached@ == chains(flat@, direct@.take(i as int)),
    {
        let chain = ancestor_chain(flat, direct[i]);
        assert(direct@.take(i + 1).drop_last() =~= direct@.take(i as int));
        assert(direct@.take(i + 1).last() == direct@[i as int]);
        let mut j: usize = 0;
        let ghost before = reached@;
        while j < chain.len()
            invariant
                j <= chain@.len(),
                reached@ == before + chain@.take(j as int),
            decreases chain@.len() - j,
        {
            reached.push(chain[j]);
            assert(chain@.take(j + 1) =~= chain@.take(j as int).push(chain@[j as int]));
            j = j + 1;
        }
        assert(chain@.take(chain@.len() as int) =~= chain@);
    }
    assert(direct@.take(direct@.len() as int) =~= direct@);
    let ghost ids = reached@;
    let mut names: Vec<String> = Vec::new();
    for t in 0..flat.len()
        invariant
            ids == reached@,
            string_views(names@) == names_of_ids(flat@.take(t as int), ids),
    {
        assert(flat@.take(t + 1).drop_last() =~= flat@.take(t as int));
        assert(flat@.take(t + 1).last() == flat@[t as int]);
        if holds_id(&reached, flat[t].id) {
            assert(reached@.contains(flat@[t as int].id));
            let ghost before = names@;
            names.push(flat[t].name.clone());
            assert(string_views(names@) =~= string_views(before).push(flat@[t as int].name@));
        } else {
            assert(!reached@.contains(flat@[t as int].id));
        }
    }
    assert(flat@.take(flat@.len() as int) =~= flat@);
    names
}

/// Putting tag `id` under `parent` would close a loop: the parent is the tag
/// itself or lies below it (the tag is among the parent's ancestors).
pub open spec fn closes_loop(flat: Seq<Tag>, id: i64, parent: Option<i64>) -> bool {
    match parent {
        Some(p) => chain_ids(flat, p, flat.len()).contains(id),
        None => false,
    }
}

/// The message of a refused move: `Tag <id> cannot be placed under itself or
/// its descendants`.
pub open spec fn loop_text(id: i64) -> Seq<char> {
    "Tag "@ + signed_decimal(id as int) + " cannot be placed under itself or its descendants"@
}

/// Checks a new parent for tag `id` against the stored tags `flat`: the tags
/// stay a forest only if the parent is not the tag itself or one of its
/// descendants.
pub fn check_tag_parent(flat: &Vec<Tag>, id: i64, parent: Option<i64>) -> (r: Result<(), AppError>)
    ensures
        closes_loop(flat@, id, parent) ==> (r matches Err(AppError::Other(m)) && m@ == loop_text(id)),
        !closes_loop(flat@, id, parent) ==> r is Ok,
        parent is None ==> r is Ok,
        ids_distinct(flat@) ==> (parent matches Some(p) ==> (r is Ok <==> !exists|k: nat| k <= flat@.len()
            && #[trigger] up(flat@, p, k) == Some(id))),
{
    proof {
        if let Some(p) = parent {
            if ids_distinct(flat@) {
                law_move_refused_exactly(flat@, id, p);
            }
        }
    }
    match parent {
        None => Ok(()),
        Some(p) => {
            let chain = ancestor_chain(flat, p);
            if holds_id(&chain, id) {
                assert(chain@.contains(id));
                let mut m = String::new();
                m.append("Tag ");
                push_signed_decimal(&mut m, id);
                m.append(" cannot be placed under itself or its descendants");
                assert(m@ =~= loop_text(id));
                Err(AppError::Other(m))
            } else {
                assert(!chain@.contains(id)) by {
                    if chain@.contains(id) {
                        let k = choose|k: int| 0 <= k < chain@.len() && chain@[k] == id;
                        assert(chain@.to_set().contains(id));
                    }
                }
                Ok(())
            }
        },
    }
}

/// The statements that remove the tags with the given ids: first the files that
/// carry any of them (whose search entries must then be rebuilt), then the
/// deletion itself; each binds the ids in order.
pub fn delete_tag_statements(ids: &Vec<i64>) -> (r: (Statement, Statement))
    ensures
        r.0.sql@ == "SELECT DISTINCT file_id FROM file_tags WHERE tag_id IN ("@ + placeholders(ids@.len(), ","@) + ")"@,
        r.1.sql@ == "DELETE FROM tags WHERE id IN ("@ + placeholders(ids@.len(), ","@) + ")"@,
        param_views(r.0.params@) == ids@.map_values(|i: i64| ParamView::Integer(i)),
        param_views(r.1.params@) == ids@.map_values(|i: i64| ParamView::Integer(i)),
{
    let mut affected = String::new();
    affected.append("SELECT DISTINCT file_id FROM file_tags WHERE tag_id IN (");
    push_placeholders(&mut affected, ids.len(), ",");
    affected.append(")");
    let mut delete = String::new();
    delete.append("DELETE FROM tags WHERE id IN (");
    push_placeholders(&mut delete, ids.len(), ",");
    delete.append(")");
    assert(affected@ =~= "SELECT DISTINCT file_id FROM file_tags WHERE tag_id IN ("@ + placeholders(ids@.len(), ","@) + ")"@);
    assert(delete@ =~= "DELETE FROM tags WHERE id IN ("@ + placeholders(ids@.len(), ","@) + ")"@);
    (Statement { sql: affected, params: integer_params(ids) }, Statement { sql: delete, params: integer_params(ids) })
}

/// No two tags share an id (the database keys tags by id).
pub open spec fn ids_distinct(flat: Seq<Tag>) -> bool {
    forall|i: int, j: int| 0 <= i < j < flat.len() ==> #[trigger] flat[i].id != #[trigger] flat[j].id
}

/// The parent link of the tag with id `y`; none when no tag has that id.
pub open spec fn parent_of(flat: Seq<Tag>, y: i64) -> Option<i64> {
    if exists|i: int| 0 <= i < flat.len() && #[trigger] flat[i].id == y {
        flat[choose|i: int| 0 <= i < flat.len() && #[trigger] flat[i].id == y].parent_id
    } else {
        None
    }
}

/// The id reached from `y` by following `k` parent links.
pub open spec fn up(flat: Seq<Tag>, y: i64, k: nat) -> Option<i64>
    decreases k,
{
    if k == 0 {
        Some(y)
    } else {
        match parent_of(flat, y) {
            Some(p) => up(flat, p, (k - 1) as nat),
            None => None,
        }
    }
}

/// `y` is `x` or lies below it.
pub open spec fn in_closure(flat: Seq<Tag>, y: i64, x: i64) -> bool {
    exists|k: nat| #[trigger] up(flat, y, k) == Some(x)
}

/// Some tag with id `r` has no parent.
pub open spec fn is_root_id(flat: Seq<Tag>, r: i64) -> bool {
    exists|i: int| 0 <= i < flat.len() && #[trigger] flat[i].id == r && flat[i].parent_id is None
}

/// Following parent links from `y` ends at a parentless tag.
pub open spec fn rooted(flat: Seq<Tag>, y: i64) -> bool {
    exists|k: nat| #[trigger] up(flat, y, k) matches Some(r) && is_root_id(flat, r)
}

/// Tags of `flat` with distinct ids that all have the parent link `link`.
pub open spec fn siblings(flat: Seq<Tag>, tags: Seq<Tag>, link: Option<i64>) -> bool {
    &&& forall|i: int| 0 <= i < tags.len() ==> (#[trigger] tags[i]).parent_id == link
        && exists|j: int| 0 <= j < flat.len() && flat[j] == tags[i]
    &&& forall|i: int, j: int| 0 <= i < j < tags.len() ==> #[trigger] tags[i].id != #[trigger] tags[j].id
}

/// Every node of the tree has as children exactly the tags whose parent it is.
pub open spec fn full(flat: Seq<Tag>, tree: TagTree) -> bool
    decreases tree,
{
    &&& top_tags(tree.children) == children_of(flat, tree.tag.id)
    &&& forall|i: int| 0 <= i < tree.children.len() ==> full(flat, #[trigger] tree.children[i])
}

proof fn lemma_parent_of(flat: Seq<Tag>, j: int)
    requires
        ids_distinct(flat),
        0 <= j < flat.len(),
    ensures
        parent_of(flat, flat[j].id) == flat[j].parent_id,
{
    let y = flat[j].id;
    assert(exists|i: int| 0 <= i < flat.len() && #[trigger] flat[i].id == y);
    let c = choose|i: int| 0 <= i < flat.len() && #[trigger] flat[i].id == y;
    if c != j {
        if c < j {
            assert(flat[c].id != flat[j].id);
        } else {
            assert(flat[j].id != flat[c].id);
        }
    }
}

proof fn lemma_up_split(flat: Seq<Tag>, y: i64, a: nat, b: nat)
    ensures
        up(flat, y, a + b) == match up(flat, y, a) {
            Some(z) => up(flat, z, b),
            None => None,
        },
    decreases a,
{
    if a > 0 {
        match parent_of(flat, y) {
            Some(p) => {
                lemma_up_split(flat, p, (a - 1) as nat, b);
                assert((a + b - 1) as nat == ((a - 1) as nat + b) as nat);
            },
            None => {},
        }
    }
}

proof fn lemma_up_none_stays(flat: Seq<Tag>, y: i64, a: nat, b: nat)
    requires
        up(flat, y, a) is None,
        a <= b,
    ensures
        up(flat, y, b) is None,
{
    lemma_up_split(flat, y, a, (b - a) as nat);
    assert((a + (b - a) as nat) as nat == b);
}

proof fn lemma_up_repeat(flat: Seq<Tag>, y: i64, k: nat, n: nat)
    requires
        up(flat, y, k) == Some(y),
    ensures
        up(flat, y, k * n) == Some(y),
    decreases n,
{
    if n > 0 {
        lemma_up_repeat(flat, y, k, (n - 1) as nat);
        lemma_up_split(flat, y, k, k * (n - 1) as nat);
        assert(k + k * (n - 1) as nat == k * n) by (nonlinear_arith)
            requires
                n > 0,
        ;
    } else {
        assert(k * 0 == 0);
    }
}

/// A rooted id does not lie on a cycle of parent links.
proof fn lemma_rooted_no_cycle(flat: Seq<Tag>, y: i64, k: nat)
    requires
        ids_distinct(flat),
        rooted(flat, y),
        k >= 1,
    ensures
        up(flat, y, k) != Some(y),
{
    if up(flat, y, k) == Some(y) {
        let m = choose|m: nat| #[trigger] up(flat, y, m) matches Some(r) && is_root_id(flat, r);
        let r = up(flat, y, m)->0;
        let j = choose|j: int| 0 <= j < flat.len() && #[trigger] flat[j].id == r && flat[j].parent_id is None;
        lemma_parent_of(flat, j);
        lemma_up_split(flat, y, m, 1);
        assert(up(flat, r, 1) is None);
        let n = m + 1;
        lemma_up_repeat(flat, y, k, n);
        assert(k * n >= n) by (nonlinear_arith)
            requires
                k >= 1,
        ;
        lemma_up_none_stays(flat, y, m + 1, k * n);
    }
}

/// Subtrees of distinct siblings hold no id in common.
proof fn lemma_siblings_disjoint(flat: Seq<Tag>, t1: Tag, t2: Tag, j1: int, j2: int, y: i64)
    requires
        ids_distinct(flat),
        0 <= j1 < flat.len(),
        0 <= j2 < flat.len(),
        flat[j1] == t1,
        flat[j2] == t2,
        t1.id != t2.id,
        t1.parent_id == t2.parent_id,
        rooted(flat, t1.id),
        rooted(flat, t2.id),
    ensures
        !(in_closure(flat, y, t1.id) && in_closure(flat, y, t2.id)),
{
    if in_closure(flat, y, t1.id) && in_closure(flat, y, t2.id) {
        let k1 = choose|k: nat| #[trigger] up(flat, y, k) == Some(t1.id);
        let k2 = choose|k: nat| #[trigger] up(flat, y, k) == Some(t2.id);
        lemma_parent_of(flat, j1);
        lemma_parent_of(flat, j2);
        if k1 < k2 {
            lemma_sibling_above(flat, y, t1, t2, k1, k2);
        } else if k2 < k1 {
            lemma_sibling_above(flat, y, t2, t1, k2, k1);
        }
    }
}

proof fn lemma_sibling_above(flat: Seq<Tag>, y: i64, a: Tag, b: Tag, ka: nat, kb: nat)
    requires
        ids_distinct(flat),
        ka < kb,
        parent_of(flat, a.id) == a.parent_id,
        parent_of(flat, b.id) == b.parent_id,
        a.parent_id == b.parent_id,
        rooted(flat, b.id),
    ensures
        !(up(flat, y, ka) == Some(a.id) && up(flat, y, kb) == Some(b.id)),
{
    if up(flat, y, ka) == Some(a.id) && up(flat, y, kb) == Some(b.id) {
    let d = (kb - ka) as nat;
    lemma_up_split(flat, y, ka, d);
    assert((ka + d) as nat == kb);
    assert(up(flat, a.id, d) == Some(b.id));
    match a.parent_id {
        None => {
            assert(up(flat, a.id, d) is None);
        },
        Some(q) => {
            assert(up(flat, q, (d - 1) as nat) == Some(b.id));
            assert(up(flat, b.id, 1) == Some(q)) by {
                assert(up(flat, q, 0) == Some(q));
            }
            lemma_up_split(flat, b.id, 1, (d - 1) as nat);
            assert((1 + (d - 1) as nat) as nat == d);
            lemma_rooted_no_cycle(flat, b.id, d);
        },
    }
    }
}

proof fn lemma_children_siblings(flat: Seq<Tag>, x: i64)
    requires
        ids_distinct(flat),
    ensures
        siblings(flat, children_of(flat, x), Some(x)),
    decreases flat.len(),
{
    if flat.len() > 0 {
        let u = flat.drop_last();
        assert(ids_distinct(u)) by {
            assert forall|i: int, j: int| 0 <= i < j < u.len() implies #[trigger] u[i].id != #[trigger] u[j].id by {
                assert(u[i] == flat[i] && u[j] == flat[j]);
            }
        }
        lemma_children_siblings(u, x);
        let cu = children_of(u, x);
        let c = children_of(flat, x);
        assert forall|i: int| 0 <= i < cu.len() implies exists|j: int| 0 <= j < flat.len() && flat[j] == #[trigger] cu[i] by {
            let j = choose|j: int| 0 <= j < u.len() && u[j] == cu[i];
            assert(flat[j] == u[j]);
        }
        if flat.last().parent_id == Some(x) {
            assert(c == cu.push(flat.last()));
            assert forall|i: int| 0 <= i < c.len() implies (#[trigger] c[i]).parent_id == Some(x)
                && exists|j: int| 0 <= j < flat.len() && flat[j] == c[i] by {
                if i < cu.len() {
                    assert(c[i] == cu[i]);
                } else {
                    assert(flat[flat.len() - 1] == c[i]);
                }
            }
            assert forall|i: int, j: int| 0 <= i < j < c.len() implies #[trigger] c[i].id != #[trigger] c[j].id by {
                if j < cu.len() {
                    assert(c[i] == cu[i] && c[j] == cu[j]);
                } else {
                    assert(c[i] == cu[i]);
                    let k = choose|k: int| 0 <= k < u.len() && u[k] == cu[i];
                    assert(flat[k] == cu[i]);
                    assert(flat[k].id != flat[flat.len() - 1].id);
                }
            }
        }
    }
}

proof fn lemma_roots_siblings(flat: Seq<Tag>)
    requires
        ids_distinct(flat),
    ensures
        siblings(flat, roots_of(flat), None),
    decreases flat.len(),
{
    if flat.len() > 0 {
        let u = flat.drop_last();
        assert(ids_distinct(u)) by {
            assert forall|i: int, j: int| 0 <= i < j < u.len() implies #[trigger] u[i].id != #[trigger] u[j].id by {
                assert(u[i] == flat[i] && u[j] == flat[j]);
            }
        }
        lemma_roots_siblings(u);
        let cu = roots_of(u);
        let c = roots_of(flat);
        assert forall|i: int| 0 <= i < cu.len() implies exists|j: int| 0 <= j < flat.len() && flat[j] == #[trigger] cu[i] by {
            let j = choose|j: int| 0 <= j < u.len() && u[j] == cu[i];
            assert(flat[j] == u[j]);
        }
        if flat.last().parent_id is None {
            assert(c == cu.push(flat.last()));
            assert forall|i: int| 0 <= i < c.len() implies (#[trigger] c[i]).parent_id == None::<i64>
                && exists|j: int| 0 <= j < flat.len() && flat[j] == c[i] by {
                if i < cu.len() {
                    assert(c[i] == cu[i]);
                } else {
                    assert(flat[flat.len() - 1] == c[i]);
                }
            }
            assert forall|i: int, j: int| 0 <= i < j < c.len() implies #[trigger] c[i].id != #[trigger] c[j].id by {
                if j < cu.len() {
                    assert(c[i] == cu[i] && c[j] == cu[j]);
                } else {
                    assert(c[i] == cu[i]);
                    let k = choose|k: int| 0 <= k < u.len() && u[k] == cu[i];
                    assert(flat[k] == cu[i]);
                    assert(flat[k].id != flat[flat.len() - 1].id);
                }
            }
        }
    }
}

proof fn lemma_grow_full(flat: Seq<Tag>, tags: Seq<Tag>, used: Set<i64>, link: Option<i64>)
    requires
        ids_distinct(flat),
        siblings(flat, tags, link),
        forall|i: int| 0 <= i < tags.len() ==> rooted(flat, #[trigger] tags[i].id),
        forall|i: int, x: i64| 0 <= i < tags.len() && #[trigger] in_closure(flat, x, tags[i].id) ==> !used.contains(x),
    ensures
        forall|i: int| 0 <= i < tags.len() ==> full(flat, #[trigger] grow(flat, tags, used).0[i]),
        forall|x: i64| #[trigger] grow(flat, tags, used).1.contains(x) ==> used.contains(x)
            || exists|i: int| 0 <= i < tags.len() && #[trigger] in_closure(flat, x, tags[i].id),
    decreases pending(flat, used), tags.len(),
{
    lemma_grow_shape(flat, tags, used);
    if tags.len() > 0 {
        let t = tags[0];
        let jt = choose|j: int| 0 <= j < flat.len() && flat[j] == t;
        lemma_parent_of(flat, jt);
        assert(up(flat, t.id, 0) == Some(t.id));
        assert(in_closure(flat, t.id, tags[0].id));
        assert(!used.contains(t.id));
        let c = children_of(flat, t.id);
        lemma_children_link(flat, t.id);
        let cond = !used.contains(t.id) && parent_links(flat).contains(Some(t.id));
        let (kids, used1) = if cond {
            (grow(flat, c, used.insert(t.id)).0, grow(flat, c, used.insert(t.id)).1)
        } else {
            (Seq::<TagTree>::empty(), used)
        };
        assert(grow(flat, tags, used).0 == seq![TagTree { tag: t, children: kids }] + grow(flat, tags.drop_first(), used1.union(used)).0);
        // Facts about the children of `t`.
        lemma_children_siblings(flat, t.id);
        assert forall|i: int| 0 <= i < c.len() implies up(flat, (#[trigger] c[i]).id, 1) == Some(t.id) by {
            let j = choose|j: int| 0 <= j < flat.len() && flat[j] == c[i];
            lemma_parent_of(flat, j);
            assert(up(flat, t.id, 0) == Some(t.id));
        }
        assert forall|i: int, x: i64| 0 <= i < c.len() && #[trigger] in_closure(flat, x, c[i].id) implies in_closure(flat, x, t.id) by {
            let k = choose|k: nat| #[trigger] up(flat, x, k) == Some(c[i].id);
            lemma_up_split(flat, x, k, 1);
        }
        if cond {
            lemma_pending_insert(flat, used, t.id);
            assert forall|i: int| 0 <= i < c.len() implies rooted(flat, #[trigger] c[i].id) by {
                let m = choose|m: nat| #[trigger] up(flat, t.id, m) matches Some(r) && is_root_id(flat, r);
                lemma_up_split(flat, c[i].id, 1, m);
                assert(up(flat, c[i].id, 1 + m) == up(flat, t.id, m));
            }
            assert forall|i: int, x: i64| 0 <= i < c.len() && #[trigger] in_closure(flat, x, c[i].id) implies !used.insert(t.id).contains(x) by {
                assert(in_closure(flat, x, t.id));
                if x == t.id {
                    let k = choose|k: nat| #[trigger] up(flat, x, k) == Some(c[i].id);
                    lemma_up_split(flat, t.id, k, 1);
                    lemma_rooted_no_cycle(flat, t.id, k + 1);
                }
            }
            lemma_grow_full(flat, c, used.insert(t.id), Some(t.id));
            assert(top_tags(kids) == c);
        } else {
            assert(c.len() == 0);
            assert(top_tags(kids) =~= c);
        }
        let tree = TagTree { tag: t, children: kids };
        assert(full(flat, tree));
        // `used1` only adds ids below `t`.
        assert forall|x: i64| #[trigger] used1.union(used).contains(x) implies used.contains(x) || in_closure(flat, x, t.id) by {
            if cond && !used.contains(x) && used1.contains(x) {
                if x == t.id {
                    assert(up(flat, x, 0) == Some(t.id));
                } else {
                    assert(!used.contains(x));
                    let i = choose|i: int| 0 <= i < c.len() && #[trigger] in_closure(flat, x, c[i].id);
                }
            }
        }
        // The remaining siblings.
        let rest = tags.drop_first();
        assert forall|i: int| 0 <= i < rest.len() implies (#[trigger] rest[i]).parent_id == link
            && exists|j: int| 0 <= j < flat.len() && flat[j] == rest[i] by {
            assert(rest[i] == tags[i + 1]);
        }
        assert forall|i: int, j: int| 0 <= i < j < rest.len() implies #[trigger] rest[i].id != #[trigger] rest[j].id by {
            assert(rest[i] == tags[i + 1] && rest[j] == tags[j + 1]);
        }
        assert forall|i: int| 0 <= i < rest.len() implies rooted(flat, #[trigger] rest[i].id) by {
            assert(rest[i] == tags[i + 1]);
        }
        assert forall|i: int, x: i64| 0 <= i < rest.len() && #[trigger] in_closure(flat, x, rest[i].id) implies !used1.union(used).contains(x) by {
            assert(rest[i] == tags[i + 1]);
            assert(!used.contains(x));
            let t2 = rest[i];
            let j2 = choose|j: int| 0 <= j < flat.len() && flat[j] == t2;
            assert(t.id != t2.id);
            lemma_siblings_disjoint(flat, t, t2, jt, j2, x);
        }
        lemma_pending_union(flat, used, used1);
        lemma_grow_full(flat, rest, used1.union(used), link);
        let out = grow(flat, tags, used).0;
        let rest_trees = grow(flat, rest, used1.union(used)).0;
        assert forall|i: int| 0 <= i < tags.len() implies full(flat, #[trigger] out[i]) by {
            if i == 0 {
                assert(out[0] == tree);
            } else {
                assert(out[i] == rest_trees[i - 1]);
            }
        }
        assert forall|x: i64| #[trigger] grow(flat, tags, used).1.contains(x) implies used.contains(x)
            || exists|i: int| 0 <= i < tags.len() && #[trigger] in_closure(flat, x, tags[i].id) by {
            assert(grow(flat, tags, used).1 == grow(flat, rest, used1.union(used)).1);
            if !used.contains(x) {
                if used1.union(used).contains(x) {
                    assert(in_closure(flat, x, tags[0].id));
                } else {
                    let i = choose|i: int| 0 <= i < rest.len() && #[trigger] in_closure(flat, x, rest[i].id);
                    assert(rest[i] == tags[i + 1]);
                    assert(in_closure(flat, x, tags[i + 1].id));
                }
            }
        }
    }
}

/// Law: when no two tags share an id, every node of the forest holds exactly the
/// tags whose parent it is, at every depth; with `law_forest_shape` the forest is
/// the whole hierarchy under the parentless tags.
pub proof fn law_forest_complete(flat: Seq<Tag>)
    requires
        ids_distinct(flat),
    ensures
        forall|i: int| 0 <= i < tag_forest(flat).len() ==> full(flat, #[trigger] tag_forest(flat)[i]),
{
    let roots = roots_of(flat);
    lemma_roots_siblings(flat);
    assert forall|i: int| 0 <= i < roots.len() implies rooted(flat, #[trigger] roots[i].id) by {
        let j = choose|j: int| 0 <= j < flat.len() && flat[j] == roots[i];
        assert(up(flat, roots[i].id, 0) == Some(roots[i].id));
        assert(is_root_id(flat, roots[i].id));
    }
    lemma_grow_shape(flat, roots, Set::empty());
    lemma_grow_full(flat, roots, Set::empty(), None);
}


/// The tags with tag `id` put under `p`.
pub open spec fn reparented(flat: Seq<Tag>, id: i64, p: i64) -> Seq<Tag> {
    flat.map_values(
        |t: Tag|
            if t.id == id {
                Tag {
                    id: t.id,
                    name: t.name,
                    color: t.color,
                    parent_id: Some(p),
                    description: t.description,
                    created_at: t.created_at,
                }
            } else {
                t
            },
    )
}

proof fn lemma_parent_link_is_parent_of(flat: Seq<Tag>, y: i64)
    requires
        ids_distinct(flat),
    ensures
        parent_link(flat, y) == parent_of(flat, y),
{
    if exists|i: int| 0 <= i < flat.len() && #[trigger] flat[i].id == y {
        let i = choose|i: int| 0 <= i < flat.len() && #[trigger] flat[i].id == y;
        lemma_parent_of(flat, i);
        assert forall|j: int| 0 <= j < i implies flat[j].id != y by {
            assert(flat[j].id != flat[i].id);
        }
        assert(0 <= i < flat.len() && flat[i].id == y && forall|j: int| 0 <= j < i ==> flat[j].id != y);
        let c = choose|c: int| 0 <= c < flat.len() && #[trigger] flat[c].id == y && forall|j: int| 0 <= j < c ==> flat[j].id != y;
        if c < i {
            assert(flat[c].id != flat[i].id);
        }
        if c > i {
            assert(flat[i].id != flat[c].id);
        }
    }
}

/// What `up` reaches within `m` links lies on the chain of `y` of `m` links.
proof fn lemma_chain_contains(flat: Seq<Tag>, y: i64, k: nat, m: nat, x: i64)
    requires
        ids_distinct(flat),
        k <= m,
        up(flat, y, k) == Some(x),
    ensures
        chain_ids(flat, y, m).contains(x),
    decreases k,
{
    lemma_parent_link_is_parent_of(flat, y);
    if k == 0 {
        assert(chain_ids(flat, y, m)[0] == y);
    } else {
        let q = parent_of(flat, y)->0;
        lemma_chain_contains(flat, q, (k - 1) as nat, (m - 1) as nat, x);
        let rest = chain_ids(flat, q, (m - 1) as nat);
        let i = choose|i: int| 0 <= i < rest.len() && rest[i] == x;
        assert(chain_ids(flat, y, m) == seq![y] + rest);
        assert(chain_ids(flat, y, m)[i + 1] == x);
    }
}

/// A root is reached from a tag in fewer links than there are tags.
proof fn lemma_root_depth(flat: Seq<Tag>, y: i64, m: nat, r: i64)
    requires
        ids_distinct(flat),
        up(flat, y, m) == Some(r),
        is_root_id(flat, r),
    ensures
        m < flat.len(),
{
    let xs = Seq::new((m + 1) as nat, |k: int| up(flat, y, k as nat)->0);
    assert forall|k: int| 0 <= k <= m implies #[trigger] up(flat, y, k as nat) == Some(xs[k]) by {
        if up(flat, y, k as nat) is None {
            lemma_up_none_stays(flat, y, k as nat, m);
        }
    }
    let jr = choose|j: int| 0 <= j < flat.len() && #[trigger] flat[j].id == r && flat[j].parent_id is None;
    lemma_parent_of(flat, jr);
    assert forall|a: int, b: int| 0 <= a < b <= m implies xs[a] != xs[b] by {
        if xs[a] == xs[b] {
            let xa = xs[a];
            assert(up(flat, y, a as nat) == Some(xa));
            assert(up(flat, y, b as nat) == Some(xa));
            lemma_up_split(flat, y, a as nat, (b - a) as nat);
            assert((a as nat + (b - a) as nat) as nat == b as nat);
            lemma_up_split(flat, y, a as nat, (m - a) as nat);
            assert((a as nat + (m - a) as nat) as nat == m);
            assert(up(flat, xa, (m - a) as nat) matches Some(rr) && is_root_id(flat, rr));
            assert(rooted(flat, xa));
            lemma_rooted_no_cycle(flat, xa, (b - a) as nat);
        }
    }
    let ids = flat.map_values(|t: Tag| t.id);
    assert forall|k: int| 0 <= k < xs.len() implies ids.to_set().contains(#[trigger] xs[k]) by {
        if k < m {
            lemma_up_split(flat, y, k as nat, 1);
            assert((k as nat + 1) as nat == (k + 1) as nat);
            assert(up(flat, y, (k + 1) as nat) is Some);
            assert(up(flat, xs[k], 1) is Some);
            assert(parent_of(flat, xs[k]) is Some);
            let i = choose|i: int| 0 <= i < flat.len() && #[trigger] flat[i].id == xs[k];
            assert(ids[i] == xs[k]);
        } else {
            assert(ids[jr] == xs[k]);
        }
    }
    assert(xs.no_duplicates()) by {
        assert forall|a: int, b: int| 0 <= a < xs.len() && 0 <= b < xs.len() && a != b implies xs[a] != xs[b] by {
            if a < b {
            } else {
            }
        }
    }
    xs.unique_seq_to_set();
    ids.lemma_cardinality_of_set();
    vstd::set_lib::lemma_len_subset(xs.to_set(), ids.to_set());
    assert(xs.to_set().subset_of(ids.to_set()));
}

/// After the move, tag `id` has parent `p` and every other tag keeps its parent.
proof fn lemma_reparented_parents(flat: Seq<Tag>, id: i64, p: i64, x: i64)
    requires
        ids_distinct(flat),
        exists|i: int| 0 <= i < flat.len() && #[trigger] flat[i].id == id,
    ensures
        ids_distinct(reparented(flat, id, p)),
        parent_of(reparented(flat, id, p), x) == if x == id { Some(p) } else { parent_of(flat, x) },
        forall|i: int| 0 <= i < flat.len() ==> #[trigger] reparented(flat, id, p)[i].id == flat[i].id,
        forall|i: int| 0 <= i < flat.len() && flat[i].id != id ==> #[trigger] reparented(flat, id, p)[i] == flat[i],
{
    let nf = reparented(flat, id, p);
    assert forall|i: int, j: int| 0 <= i < j < nf.len() implies #[trigger] nf[i].id != #[trigger] nf[j].id by {
        assert(flat[i].id != flat[j].id);
    }
    if exists|i: int| 0 <= i < flat.len() && #[trigger] flat[i].id == x {
        let i = choose|i: int| 0 <= i < flat.len() && #[trigger] flat[i].id == x;
        lemma_parent_of(flat, i);
        lemma_parent_of(nf, i);
    } else {
        assert(!exists|i: int| 0 <= i < nf.len() && #[trigger] nf[i].id == x) by {
            if exists|i: int| 0 <= i < nf.len() && #[trigger] nf[i].id == x {
                let i = choose|i: int| 0 <= i < nf.len() && #[trigger] nf[i].id == x;
                assert(flat[i].id == x);
            }
        }
        if x == id {
            let j = choose|i: int| 0 <= i < flat.len() && #[trigger] flat[i].id == id;
            assert(false);
        }
    }
}

/// Following links in the moved tags agrees with the stored ones as long as the
/// way does not pass through the moved tag.
proof fn lemma_up_avoiding(flat: Seq<Tag>, id: i64, p: i64, y: i64, k: nat)
    requires
        ids_distinct(flat),
        exists|i: int| 0 <= i < flat.len() && #[trigger] flat[i].id == id,
        forall|k2: nat| k2 < k ==> #[trigger] up(flat, y, k2) != Some(id),
    ensures
        up(reparented(flat, id, p), y, k) == up(flat, y, k),
    decreases k,
{
    if k > 0 {
        assert(up(flat, y, 0) != Some(id));
        lemma_reparented_parents(flat, id, p, y);
        match parent_of(flat, y) {
            Some(q) => {
                assert forall|k2: nat| k2 < (k - 1) as nat implies #[trigger] up(flat, q, k2) != Some(id) by {
                    assert(up(flat, y, k2 + 1) == up(flat, q, k2));
                    assert(up(flat, y, (k2 + 1) as nat) != Some(id));
                }
                lemma_up_avoiding(flat, id, p, q, (k - 1) as nat);
            },
            None => {},
        }
    }
}

proof fn lemma_moved_tag_rooted(flat: Seq<Tag>, id: i64, p: i64)
    requires
        ids_distinct(flat),
        forall|i: int| 0 <= i < flat.len() ==> rooted(flat, #[trigger] flat[i].id),
        exists|i: int| 0 <= i < flat.len() && #[trigger] flat[i].id == id,
        exists|i: int| 0 <= i < flat.len() && #[trigger] flat[i].id == p,
        !closes_loop(flat, id, Some(p)),
    ensures
        rooted(reparented(flat, id, p), id),
{
    let nf = reparented(flat, id, p);
    let jp = choose|i: int| 0 <= i < flat.len() && #[trigger] flat[i].id == p;
    assert(rooted(flat, flat[jp].id));
    let m = choose|m: nat| #[trigger] up(flat, p, m) matches Some(r) && is_root_id(flat, r);
    let r = up(flat, p, m)->0;
    lemma_root_depth(flat, p, m, r);
    assert forall|k2: nat| k2 <= m implies #[trigger] up(flat, p, k2) != Some(id) by {
        if up(flat, p, k2) is None {
            lemma_up_none_stays(flat, p, k2, m);
        } else {
            lemma_chain_contains(flat, p, k2, flat.len(), up(flat, p, k2)->0);
        }
    }
    lemma_up_avoiding(flat, id, p, p, m);
    let jr = choose|j: int| 0 <= j < flat.len() && #[trigger] flat[j].id == r && flat[j].parent_id is None;
    lemma_reparented_parents(flat, id, p, id);
    assert(r != id);
    assert(nf[jr] == flat[jr]);
    assert(is_root_id(nf, r));
    assert(up(nf, id, m + 1) == up(nf, p, m));
    assert(up(nf, id, (m + 1) as nat) matches Some(rr) && is_root_id(nf, rr));
}

proof fn lemma_rooted_after_move(flat: Seq<Tag>, id: i64, p: i64, y: i64, m: nat)
    requires
        ids_distinct(flat),
        exists|i: int| 0 <= i < flat.len() && #[trigger] flat[i].id == id,
        rooted(reparented(flat, id, p), id),
        up(flat, y, m) matches Some(r) && is_root_id(flat, r),
    ensures
        rooted(reparented(flat, id, p), y),
    decreases m,
{
    let nf = reparented(flat, id, p);
    if y != id {
        lemma_reparented_parents(flat, id, p, y);
        if m == 0 {
            let j = choose|j: int| 0 <= j < flat.len() && #[trigger] flat[j].id == y && flat[j].parent_id is None;
            assert(nf[j] == flat[j]);
            assert(is_root_id(nf, y));
            assert(up(nf, y, 0) matches Some(rr) && is_root_id(nf, rr));
        } else {
            let q = parent_of(flat, y)->0;
            assert(up(flat, y, m) == up(flat, q, (m - 1) as nat));
            lemma_rooted_after_move(flat, id, p, q, (m - 1) as nat);
            let k = choose|k: nat| #[trigger] up(nf, q, k) matches Some(rr) && is_root_id(nf, rr);
            assert(up(nf, y, k + 1) == up(nf, q, k));
            assert(up(nf, y, (k + 1) as nat) matches Some(rr) && is_root_id(nf, rr));
        }
    }
}

/// Moving a tag under a new parent keeps the tags a forest when the move is
/// allowed: if every tag leads up to a root and the new parent (an existing tag)
/// is neither the tag itself nor below it, then afterwards every tag still leads
/// up to a root, so no loop of parent links arises.
pub proof fn law_allowed_move_keeps_forest(flat: Seq<Tag>, id: i64, p: i64)
    requires
        ids_distinct(flat),
        forall|i: int| 0 <= i < flat.len() ==> rooted(flat, #[trigger] flat[i].id),
        exists|i: int| 0 <= i < flat.len() && #[trigger] flat[i].id == id,
        exists|i: int| 0 <= i < flat.len() && #[trigger] flat[i].id == p,
        !closes_loop(flat, id, Some(p)),
    ensures
        forall|i: int| 0 <= i < flat.len() ==> rooted(reparented(flat, id, p), #[trigger] reparented(flat, id, p)[i].id),
{
    let nf = reparented(flat, id, p);
    lemma_moved_tag_rooted(flat, id, p);
    assert forall|i: int| 0 <= i < flat.len() implies rooted(nf, #[trigger] nf[i].id) by {
        let y = flat[i].id;
        lemma_reparented_parents(flat, id, p, y);
        assert(rooted(flat, flat[i].id));
        let m = choose|m: nat| #[trigger] up(flat, y, m) matches Some(r) && is_root_id(flat, r);
        lemma_rooted_after_move(flat, id, p, y, m);
    }
}

/// What lies on the chain of `y` is reached from `y` by following parent links.
proof fn lemma_chain_reached(flat: Seq<Tag>, y: i64, m: nat, x: i64)
    requires
        ids_distinct(flat),
        chain_ids(flat, y, m).contains(x),
    ensures
        exists|k: nat| k <= m && #[trigger] up(flat, y, k) == Some(x),
    decreases m,
{
    lemma_parent_link_is_parent_of(flat, y);
    let c = chain_ids(flat, y, m);
    let i = choose|i: int| 0 <= i < c.len() && c[i] == x;
    if i == 0 {
        assert(c[0] == y);
        assert(up(flat, y, 0) == Some(x));
    } else {
        let q = parent_of(flat, y)->0;
        let rest = chain_ids(flat, q, (m - 1) as nat);
        assert(c == seq![y] + rest);
        assert(rest[i - 1] == x);
        lemma_chain_reached(flat, q, (m - 1) as nat, x);
        let k = choose|k: nat| k <= (m - 1) as nat && #[trigger] up(flat, q, k) == Some(x);
        assert(up(flat, y, k + 1) == up(flat, q, k));
        assert(up(flat, y, (k + 1) as nat) == Some(x));
    }
}

/// The move check refuses exactly the moves that close a loop: putting tag `id`
/// under `p` is refused when `id` is `p` or one of `p`'s ancestors (reached from
/// `p` within as many parent links as there are tags), and allowed otherwise; no
/// parent at all is always allowed.
pub proof fn law_move_refused_exactly(flat: Seq<Tag>, id: i64, p: i64)
    requires
        ids_distinct(flat),
    ensures
        closes_loop(flat, id, Some(p)) <==> exists|k: nat| k <= flat.len() && #[trigger] up(flat, p, k) == Some(id),
        !closes_loop(flat, id, None),
{
    if closes_loop(flat, id, Some(p)) {
        lemma_chain_reached(flat, p, flat.len(), id);
    }
    if exists|k: nat| k <= flat.len() && #[trigger] up(flat, p, k) == Some(id) {
        let k = choose|k: nat| k <= flat.len() && #[trigger] up(flat, p, k) == Some(id);
        lemma_chain_contains(flat, p, k, flat.len(), id);
    }
}

/// In a forest (every tag leads up to a root), a move is refused exactly when the
/// new parent is the tag itself or lies below it: `id` is reached from `p` by
/// following parent links, with no bound on their number.
pub proof fn law_move_refused_exactly_in_forest(flat: Seq<Tag>, id: i64, p: i64)
    requires
        ids_distinct(flat),
        forall|i: int| 0 <= i < flat.len() ==> rooted(flat, #[trigger] flat[i].id),
    ensures
        closes_loop(flat, id, Some(p)) <==> in_closure(flat, p, id),
{
    law_move_refused_exactly(flat, id, p);
    if in_closure(flat, p, id) {
        let k = choose|k: nat| #[trigger] up(flat, p, k) == Some(id);
        if exists|i: int| 0 <= i < flat.len() && #[trigger] flat[i].id == p {
            let jp = choose|i: int| 0 <= i < flat.len() && #[trigger] flat[i].id == p;
            assert(rooted(flat, flat[jp].id));
            let m = choose|m: nat| #[trigger] up(flat, p, m) matches Some(r) && is_root_id(flat, r);
            let r = up(flat, p, m)->0;
            lemma_root_depth(flat, p, m, r);
            let jr = choose|j: int| 0 <= j < flat.len() && #[trigger] flat[j].id == r && flat[j].parent_id is None;
            lemma_parent_of(flat, jr);
            lemma_up_split(flat, p, m, 1);
            assert(up(flat, p, m + 1) is None);
            if k > m {
                lemma_up_none_stays(flat, p, m + 1, k);
            }
            assert(k <= flat.len());
        } else {
            assert(parent_of(flat, p) is None);
            if k > 0 {
                lemma_up_none_stays(flat, p, 1, k);
            }
            assert(k <= flat.len());
        }
    }
    if closes_loop(flat, id, Some(p)) {
        let k = choose|k: nat| k <= flat.len() && #[trigger] up(flat, p, k) == Some(id);
        assert(in_closure(flat, p, id));
    }
}

} // verus!
