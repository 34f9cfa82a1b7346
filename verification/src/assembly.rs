//! Assembling a scene from a description in which textures and materials
//! are referred to by name.
//!
//! The description holds textures, materials and objects. A checker
//! texture names two textures; a material may name textures; an object
//! names its material. Textures and materials come from tables keyed by
//! name, so their names are distinct and the order in which they are
//! listed carries no meaning. Assembly replaces every name by the position
//! it stands for and fails on a name that stands for nothing, and on a
//! checker that reaches itself through the textures it names. Where a name
//! is borne twice all the same, the last bearer counts.

use vstd::prelude::*;

verus! {

/// The textures that a texture refers to.
pub enum TextureRefs {
    /// A plain colour: refers to nothing.
    Solid,
    /// A checker pattern of two named textures.
    Checker { texture1: String, texture2: String },
}

/// The textures that a material refers to.
pub enum MaterialRefs {
    Lambertian { texture: String },
    Phong { diffuse: String, specular: String },
    Metal,
    Dielectric,
    Emission { texture: String },
}

/// A texture of the description: its name and what it refers to.
pub struct TextureEntry {
    pub name: String,
    pub refs: TextureRefs,
}

/// A material of the description: its name and what it refers to.
pub struct MaterialEntry {
    pub name: String,
    pub refs: MaterialRefs,
}

/// A texture with its references resolved to positions among the textures.
#[derive(Debug, Copy, Clone, PartialEq, Eq, Structural)]
pub enum TextureLink {
    Solid,
    Checker(usize, usize),
}

/// A material with its references resolved to positions among the
/// textures.
#[derive(Debug, Copy, Clone, PartialEq, Eq, Structural)]
pub enum MaterialLink {
    Lambertian(usize),
    Phong(usize, usize),
    Metal,
    Dielectric,
    Emission(usize),
}

/// A description with every name resolved: one link per texture and per
/// material, for each object the position of its material, and an order
/// of the textures in which each checker stands behind the two textures
/// it names.
pub struct Links {
    pub textures: Vec<TextureLink>,
    pub order: Vec<usize>,
    pub materials: Vec<MaterialLink>,
    pub objects: Vec<usize>,
}

/// The names of `entries`, in their order.
pub open spec fn texture_names(entries: Seq<TextureEntry>) -> Seq<Seq<char>> {
    Seq::new(entries.len(), |i: int| entries[i].name@)
}

/// The names of `entries`, in their order.
pub open spec fn material_names(entries: Seq<MaterialEntry>) -> Seq<Seq<char>> {
    Seq::new(entries.len(), |i: int| entries[i].name@)
}

/// The position that `name` stands for among the first `upto` of `names`:
/// the last one that bears it, if any does.
pub open spec fn lookup(names: Seq<Seq<char>>, upto: int, name: Seq<char>) -> Option<usize>
    decreases upto,
{
    if upto <= 0 {
        None
    } else if names[upto - 1] == name {
        Some((upto - 1) as usize)
    } else {
        lookup(names, upto - 1, name)
    }
}

/// A name that resolves, resolves to a position that bears it, and a name
/// resolves exactly when one of the positions bears it.
pub proof fn lemma_lookup(names: Seq<Seq<char>>, upto: int, name: Seq<char>)
    requires
        0 <= upto <= names.len(),
        names.len() <= usize::MAX,
    ensures
        lookup(names, upto, name) matches Some(k) ==> k < upto && names[k as int] == name,
        lookup(names, upto, name) is None <==> forall|k: int|
            0 <= k < upto ==> names[k] != name,
    decreases upto,
{
    if upto > 0 {
        lemma_lookup(names, upto - 1, name);
    }
}

/// Whether one of `names` is `name`.
pub open spec fn borne(names: Seq<Seq<char>>, name: Seq<char>) -> bool {
    exists|k: int| 0 <= k < names.len() && #[trigger] names[k] == name
}

/// A name stands for a position exactly when it is borne.
pub proof fn lemma_lookup_borne(names: Seq<Seq<char>>, name: Seq<char>)
    requires
        names.len() <= usize::MAX,
    ensures
        lookup(names, names.len() as int, name) is Some <==> borne(names, name),
{
    lemma_lookup(names, names.len() as int, name);
}

/// Whether the textures that a texture names are among `names`.
pub open spec fn texture_refs_borne(names: Seq<Seq<char>>, refs: TextureRefs) -> bool {
    match refs {
        TextureRefs::Solid => true,
        TextureRefs::Checker { texture1, texture2 } => borne(names, texture1@) && borne(
            names,
            texture2@,
        ),
    }
}

/// Whether the textures that a material names are among `names`.
pub open spec fn material_refs_borne(names: Seq<Seq<char>>, refs: MaterialRefs) -> bool {
    match refs {
        MaterialRefs::Lambertian { texture } => borne(names, texture@),
        MaterialRefs::Phong { diffuse, specular } => borne(names, diffuse@) && borne(
            names,
            specular@,
        ),
        MaterialRefs::Metal => true,
        MaterialRefs::Dielectric => true,
        MaterialRefs::Emission { texture } => borne(names, texture@),
    }
}

/// No two of `names` are the same: what a table keyed by name holds of
/// its keys.
pub open spec fn distinct(names: Seq<Seq<char>>) -> bool {
    forall|i: int, j: int| 0 <= i < j < names.len() ==> names[i] != names[j]
}

/// Among distinct names each name stands for the one position that bears
/// it.
pub proof fn lemma_lookup_distinct(names: Seq<Seq<char>>, k: int)
    requires
        distinct(names),
        0 <= k < names.len() <= usize::MAX,
    ensures
        lookup(names, names.len() as int, names[k]) == Some(k as usize),
{
    lemma_lookup(names, names.len() as int, names[k]);
}

/// The link of texture `i`, if the names it refers to resolve among all
/// textures.
pub open spec fn texture_link(entries: Seq<TextureEntry>, i: int) -> Option<TextureLink> {
    let all = entries.len() as int;
    match entries[i].refs {
        TextureRefs::Solid => Some(TextureLink::Solid),
        TextureRefs::Checker { texture1, texture2 } => {
            match (
                lookup(texture_names(entries), all, texture1@),
                lookup(texture_names(entries), all, texture2@),
            ) {
                (Some(a), Some(b)) => Some(TextureLink::Checker(a, b)),
                _ => None,
            }
        },
    }
}

/// The links of all textures; a texture whose names do not resolve counts
/// as one that names nothing.
pub open spec fn links_of(entries: Seq<TextureEntry>) -> Seq<TextureLink> {
    Seq::new(
        entries.len(),
        |i: int|
            match texture_link(entries, i) {
                Some(link) => link,
                None => TextureLink::Solid,
            },
    )
}

/// Whether a texture with this link names the texture at position `j`.
pub open spec fn names_to(link: TextureLink, j: int) -> bool {
    match link {
        TextureLink::Solid => false,
        TextureLink::Checker(a, b) => j == a || j == b,
    }
}

/// Whether every link names textures below `count`.
pub open spec fn valid_links_below(links: Seq<TextureLink>, count: nat) -> bool {
    forall|i: int|
        0 <= i < links.len() ==> ((#[trigger] links[i]) matches TextureLink::Checker(a, b) ==> a
            < count && b < count)
}

/// Whether every link names textures that exist.
pub open spec fn valid_links(links: Seq<TextureLink>) -> bool {
    valid_links_below(links, links.len())
}

/// Whether the texture at place `k` of `chain` names the one at the next
/// place.
pub open spec fn names_next(links: Seq<TextureLink>, chain: Seq<int>, k: int) -> bool {
    names_to(links[chain[k]], chain[k + 1])
}

/// A chain of textures: two or more positions, each of which names the
/// next.
pub open spec fn is_chain(links: Seq<TextureLink>, chain: Seq<int>) -> bool {
    &&& chain.len() >= 2
    &&& forall|k: int| 0 <= k < chain.len() ==> 0 <= #[trigger] chain[k] < links.len()
    &&& forall|k: int| 0 <= k < chain.len() - 1 ==> #[trigger] names_next(links, chain, k)
}

/// Whether `order` lists the texture at position `j`.
pub open spec fn lists(order: Seq<usize>, j: int) -> bool {
    exists|k: int| 0 <= k < order.len() && #[trigger] order[k] == j
}

/// Whether some texture reaches itself through the textures it names.
pub open spec fn circular(links: Seq<TextureLink>) -> bool {
    exists|chain: Seq<int>| #[trigger] is_chain(links, chain) && chain[0] == chain[chain.len() - 1]
}

/// Whether `order` lists every texture once, each checker behind the two
/// textures it names.
pub open spec fn ordered(links: Seq<TextureLink>, order: Seq<usize>) -> bool {
    &&& order.no_duplicates()
    &&& forall|k: int| 0 <= k < order.len() ==> (#[trigger] order[k]) < links.len()
    &&& forall|i: int| 0 <= i < links.len() ==> #[trigger] lists(order, i)
    &&& forall|k: int|
        0 <= k < order.len() ==> (links[(#[trigger] order[k]) as int] matches TextureLink::Checker(
            a,
            b,
        ) ==> lists(order.take(k), a as int) && lists(order.take(k), b as int))
}

/// The link of a material, if its references resolve among `textures`.
pub open spec fn material_link(textures: Seq<Seq<char>>, refs: MaterialRefs) -> Option<
    MaterialLink,
> {
    let all = textures.len() as int;
    match refs {
        MaterialRefs::Lambertian { texture } => match lookup(textures, all, texture@) {
            Some(t) => Some(MaterialLink::Lambertian(t)),
            None => None,
        },
        MaterialRefs::Phong { diffuse, specular } => match (
            lookup(textures, all, diffuse@),
            lookup(textures, all, specular@),
        ) {
            (Some(d), Some(s)) => Some(MaterialLink::Phong(d, s)),
            _ => None,
        },
        MaterialRefs::Metal => Some(MaterialLink::Metal),
        MaterialRefs::Dielectric => Some(MaterialLink::Dielectric),
        MaterialRefs::Emission { texture } => match lookup(textures, all, texture@) {
            Some(t) => Some(MaterialLink::Emission(t)),
            None => None,
        },
    }
}

/// Whether every name of the description stands for something: each name
/// of a checker and of a material is borne by a texture, and each object's
/// name by a material.
pub open spec fn resolvable(
    textures: Seq<TextureEntry>,
    materials: Seq<MaterialEntry>,
    objects: Seq<String>,
) -> bool {
    &&& forall|i: int|
        0 <= i < textures.len() ==> texture_refs_borne(
            texture_names(textures),
            (#[trigger] textures[i]).refs,
        )
    &&& forall|i: int|
        0 <= i < materials.len() ==> material_refs_borne(
            texture_names(textures),
            (#[trigger] materials[i]).refs,
        )
    &&& forall|i: int|
        0 <= i < objects.len() ==> borne(material_names(materials), (#[trigger] objects[i])@)
}

/// A texture's names resolve exactly when they are borne.
pub proof fn lemma_texture_link_borne(entries: Seq<TextureEntry>, i: int)
    requires
        0 <= i < entries.len() <= usize::MAX,
    ensures
        texture_link(entries, i) is Some <==> texture_refs_borne(
            texture_names(entries),
            entries[i].refs,
        ),
{
    if let TextureRefs::Checker { texture1, texture2 } = entries[i].refs {
        lemma_lookup_borne(texture_names(entries), texture1@);
        lemma_lookup_borne(texture_names(entries), texture2@);
    }
}

/// A material's names resolve exactly when they are borne.
pub proof fn lemma_material_link_borne(names: Seq<Seq<char>>, refs: MaterialRefs)
    requires
        names.len() <= usize::MAX,
    ensures
        material_link(names, refs) is Some <==> material_refs_borne(names, refs),
{
    match refs {
        MaterialRefs::Lambertian { texture } => {
            lemma_lookup_borne(names, texture@);
        },
        MaterialRefs::Phong { diffuse, specular } => {
            lemma_lookup_borne(names, diffuse@);
            lemma_lookup_borne(names, specular@);
        },
        MaterialRefs::Emission { texture } => {
            lemma_lookup_borne(names, texture@);
        },
        _ => {},
    }
}

/// Whether `links` holds, for each texture, material and object, the
/// positions that its names stand for.
pub open spec fn resolves(
    links: Links,
    textures: Seq<TextureEntry>,
    materials: Seq<MaterialEntry>,
    objects: Seq<String>,
) -> bool {
    &&& links.textures@ == links_of(textures)
    &&& ordered(links.textures@, links.order@)
    &&& links.materials@.len() == materials.len()
    &&& links.objects@.len() == objects.len()
    &&& forall|i: int|
        0 <= i < textures.len() ==> texture_link(textures, i) == Some(#[trigger] links.textures@[i])
    &&& forall|i: int|
        0 <= i < materials.len() ==> material_link(texture_names(textures), materials[i].refs)
            == Some(#[trigger] links.materials@[i])
    &&& forall|i: int|
        0 <= i < objects.len() ==> lookup(
            material_names(materials),
            materials.len() as int,
            objects[i]@,
        ) == Some(#[trigger] links.objects@[i])
}

/// Finds the position that `name` stands for among the textures.
pub fn find_texture(entries: &Vec<TextureEntry>, name: &String) -> (found: Option<usize>)
    ensures
        found == lookup(texture_names(entries@), entries@.len() as int, name@),
{
    let mut k: usize = entries.len();
    while k > 0
        invariant
            k <= entries@.len(),
            lookup(texture_names(entries@), entries@.len() as int, name@) == lookup(
                texture_names(entries@),
                k as int,
                name@,
            ),
        decreases k,
    {
        if entries[k - 1].name == *name {
            return Some(k - 1);
        }
        k = k - 1;
    }
    None
}

/// Finds the position that `name` stands for among the materials.
pub fn find_material(entries: &Vec<MaterialEntry>, name: &String) -> (found: Option<usize>)
    ensures
        found == lookup(material_names(entries@), entries@.len() as int, name@),
{
    let mut k: usize = entries.len();
    while k > 0
        invariant
            k <= entries@.len(),
            lookup(material_names(entries@), entries@.len() as int, name@) == lookup(
                material_names(entries@),
                k as int,
                name@,
            ),
        decreases k,
    {
        if entries[k - 1].name == *name {
            return Some(k - 1);
        }
        k = k - 1;
    }
    None
}

/// Resolves the references of one material.
pub fn link_material(textures: &Vec<TextureEntry>, refs: &MaterialRefs) -> (link: Option<
    MaterialLink,
>)
    ensures
        link == material_link(texture_names(textures@), *refs),
{
    match refs {
        MaterialRefs::Lambertian { texture } => match find_texture(textures, texture) {
            Some(t) => Some(MaterialLink::Lambertian(t)),
            None => None,
        },
        MaterialRefs::Phong { diffuse, specular } => {
            let d = find_texture(textures, diffuse);
            let s = find_texture(textures, specular);
            match (d, s) {
                (Some(d), Some(s)) => Some(MaterialLink::Phong(d, s)),
                _ => None,
            }
        },
        MaterialRefs::Metal => Some(MaterialLink::Metal),
        MaterialRefs::Dielectric => Some(MaterialLink::Dielectric),
        MaterialRefs::Emission { texture } => match find_texture(textures, texture) {
            Some(t) => Some(MaterialLink::Emission(t)),
            None => None,
        },
    }
}

/// Resolves the names of one texture.
pub fn link_texture(textures: &Vec<TextureEntry>, i: usize) -> (link: Option<TextureLink>)
    requires
        i < textures@.len(),
    ensures
        link == texture_link(textures@, i as int),
        link matches Some(TextureLink::Checker(a, b)) ==> a < textures@.len() && b
            < textures@.len(),
{
    let count = textures.len();
    proof {
        if let TextureRefs::Checker { texture1, texture2 } = textures@[i as int].refs {
            let names = texture_names(textures@);
            assert(names.len() == count);
            lemma_lookup(names, names.len() as int, texture1@);
            lemma_lookup(names, names.len() as int, texture2@);
        }
    }
    match &textures[i].refs {
        TextureRefs::Solid => Some(TextureLink::Solid),
        TextureRefs::Checker { texture1, texture2 } => {
            let a = find_texture(textures, texture1);
            let b = find_texture(textures, texture2);
            match (a, b) {
                (Some(a), Some(b)) => Some(TextureLink::Checker(a, b)),
                _ => None,
            }
        },
    }
}

/// The number of textures not yet put in order.
spec fn falses(placed: Seq<bool>) -> nat
    decreases placed.len(),
{
    if placed.len() == 0 {
        0
    } else if placed.last() {
        falses(placed.drop_last())
    } else {
        falses(placed.drop_last()) + 1
    }
}

proof fn lemma_falses_update(placed: Seq<bool>, i: int)
    requires
        0 <= i < placed.len(),
        !placed[i],
    ensures
        falses(placed.update(i, true)) + 1 == falses(placed),
    decreases placed.len(),
{
    let after = placed.update(i, true);
    if i == placed.len() - 1 {
        assert(after.drop_last() == placed.drop_last());
    } else {
        lemma_falses_update(placed.drop_last(), i);
        assert(after.drop_last() == placed.drop_last().update(i, true));
    }
}

/// What holds of the textures put in order so far: they are the ones
/// marked, none stands twice, and each checker stands behind the two
/// textures it names.
spec fn arranged(links: Seq<TextureLink>, placed: Seq<bool>, order: Seq<usize>) -> bool {
    &&& placed.len() == links.len()
    &&& order.no_duplicates()
    &&& forall|k: int|
        0 <= k < order.len() ==> (#[trigger] order[k]) < links.len() && placed[order[k] as int]
    &&& forall|i: int| 0 <= i < links.len() && placed[i] ==> #[trigger] lists(order, i)
    &&& forall|k: int|
        0 <= k < order.len() ==> (links[(#[trigger] order[k]) as int] matches TextureLink::Checker(
            a,
            b,
        ) ==> lists(order.take(k), a as int) && lists(order.take(k), b as int))
}

/// A texture waits when it is a checker that names a texture not yet put
/// in order.
spec fn waiting(links: Seq<TextureLink>, placed: Seq<bool>, i: int) -> bool {
    links[i] matches TextureLink::Checker(a, b) && (!placed[a as int] || !placed[b as int])
}

/// Every texture not yet put in order waits.
spec fn stuck(links: Seq<TextureLink>, placed: Seq<bool>) -> bool {
    forall|i: int| 0 <= i < links.len() && !placed[i] ==> #[trigger] waiting(links, placed, i)
}

proof fn lemma_arranged_push(
    links: Seq<TextureLink>,
    placed: Seq<bool>,
    order: Seq<usize>,
    i: usize,
)
    requires
        valid_links(links),
        arranged(links, placed, order),
        i < links.len(),
        !placed[i as int],
        links[i as int] matches TextureLink::Checker(a, b) ==> placed[a as int]
            && placed[b as int],
    ensures
        arranged(links, placed.update(i as int, true), order.push(i)),
{
    let after = placed.update(i as int, true);
    let longer = order.push(i);
    assert forall|k: int, m: int| 0 <= k < longer.len() && 0 <= m < longer.len() && k
        != m implies longer[k] != longer[m] by {
        if k < order.len() {
            assert(placed[order[k] as int]);
        }
        if m < order.len() {
            assert(placed[order[m] as int]);
        }
    }
    assert forall|j: int| 0 <= j < links.len() && after[j] implies #[trigger] lists(longer, j) by {
        if j == i {
            assert(longer[order.len() as int] == i);
        } else {
            assert(lists(order, j));
            let k = choose|k: int| 0 <= k < order.len() && #[trigger] order[k] == j;
            assert(longer[k] == j);
        }
    }
    assert forall|k: int| 0 <= k < longer.len() implies (links[(#[trigger] longer[k]) as int] matches TextureLink::Checker(
        a,
        b,
    ) ==> lists(longer.take(k), a as int) && lists(longer.take(k), b as int)) by {
        if k < order.len() {
            assert(longer.take(k) == order.take(k));
            assert(longer[k] == order[k]);
        } else {
            assert(longer.take(k) == order);
            if let TextureLink::Checker(a, b) = links[i as int] {
                assert(lists(order, a as int));
                assert(lists(order, b as int));
            }
        }
    }
}

/// The place of texture `j` in `order`.
spec fn place_of(order: Seq<usize>, j: int) -> int {
    choose|k: int| 0 <= k < order.len() && #[trigger] order[k] == j
}

/// Along a chain the places in the order fall: a texture that another one
/// reaches stands before it.
proof fn lemma_chain_falls(links: Seq<TextureLink>, order: Seq<usize>, chain: Seq<int>, k: int)
    requires
        ordered(links, order),
        is_chain(links, chain),
        1 <= k < chain.len(),
    ensures
        place_of(order, chain[k]) < place_of(order, chain[0]),
    decreases k,
{
    let from = chain[k - 1];
    let to = chain[k];
    assert(0 <= from < links.len() && 0 <= to < links.len());
    assert(lists(order, from));
    assert(lists(order, to));
    let pf = place_of(order, from);
    let pt = place_of(order, to);
    assert(order[pf] == from);
    assert(names_next(links, chain, k - 1));
    assert(lists(order.take(pf), to));
    let m = choose|m: int| 0 <= m < order.take(pf).len() && #[trigger] order.take(pf)[m] == to;
    assert(order[m] == to);
    assert(m == pt);
    if k > 1 {
        lemma_chain_falls(links, order, chain, k - 1);
    }
}

/// Textures that can be put in order do not reach themselves.
pub proof fn lemma_ordered_is_not_circular(links: Seq<TextureLink>, order: Seq<usize>)
    requires
        ordered(links, order),
    ensures
        !circular(links),
{
    if circular(links) {
        let chain = choose|chain: Seq<int>| #[trigger]
            is_chain(links, chain) && chain[0] == chain[chain.len() - 1];
        lemma_chain_falls(links, order, chain, chain.len() - 1);
    }
}

/// Among more values than `n`, all of them at least 0 and below `n`, two
/// are the same.
proof fn lemma_two_are_the_same(values: Seq<int>, n: int)
    requires
        0 <= n < values.len(),
        forall|k: int| 0 <= k < values.len() ==> 0 <= #[trigger] values[k] < n,
    ensures
        exists|i: int, j: int| 0 <= i < j < values.len() && values[i] == values[j],
{
    if values.no_duplicates() {
        values.unique_seq_to_set();
        vstd::set_lib::lemma_int_range(0, n);
        assert(values.to_set().subset_of(vstd::set_lib::set_int_range(0, n))) by {
            assert forall|v: int| values.to_set().contains(v) implies vstd::set_lib::set_int_range(
                0,
                n,
            ).contains(v) by {
                let k = choose|k: int| 0 <= k < values.len() && values[k] == v;
                assert(0 <= values[k] < n);
            }
        }
        vstd::set_lib::lemma_len_subset(values.to_set(), vstd::set_lib::set_int_range(0, n));
    } else {
        let (i, j) = choose|i: int, j: int|
            0 <= i < values.len() && 0 <= j < values.len() && i != j && values[i] == values[j];
        if i < j {
            assert(0 <= i < j < values.len() && values[i] == values[j]);
        } else {
            assert(0 <= j < i < values.len() && values[j] == values[i]);
        }
    }
}

/// A texture that `i` names and that is not yet put in order, where `i`
/// waits.
spec fn blocker(links: Seq<TextureLink>, placed: Seq<bool>, i: int) -> int {
    match links[i] {
        TextureLink::Checker(a, b) => if !placed[a as int] {
            a as int
        } else {
            b as int
        },
        TextureLink::Solid => i,
    }
}

/// The textures met by going `steps` times from a texture to one that it
/// waits for.
spec fn trail(links: Seq<TextureLink>, placed: Seq<bool>, from: int, steps: nat) -> Seq<int>
    decreases steps,
{
    if steps == 0 {
        seq![from]
    } else {
        let before = trail(links, placed, from, (steps - 1) as nat);
        before.push(blocker(links, placed, before.last()))
    }
}

proof fn lemma_trail(links: Seq<TextureLink>, placed: Seq<bool>, from: int, steps: nat)
    requires
        valid_links(links),
        placed.len() == links.len(),
        stuck(links, placed),
        0 <= from < links.len(),
        !placed[from],
    ensures
        trail(links, placed, from, steps).len() == steps + 1,
        forall|k: int|
            0 <= k <= steps ==> 0 <= #[trigger] trail(links, placed, from, steps)[k] < links.len()
                && !placed[trail(links, placed, from, steps)[k]],
        forall|k: int|
            0 <= k < steps ==> #[trigger] names_next(
                links,
                trail(links, placed, from, steps),
                k,
            ),
    decreases steps,
{
    if steps > 0 {
        let before = trail(links, placed, from, (steps - 1) as nat);
        lemma_trail(links, placed, from, (steps - 1) as nat);
        let all = trail(links, placed, from, steps);
        let end = before[steps - 1];
        assert(before.last() == end);
        assert(!placed[end]);
        assert(waiting(links, placed, end));
        assert(all[steps as int] == blocker(links, placed, end));
        assert forall|k: int| 0 <= k <= steps implies 0 <= #[trigger] all[k] < links.len()
            && !placed[all[k]] by {
            if k < steps {
                assert(all[k] == before[k]);
            }
        }
        assert forall|k: int| 0 <= k < steps implies #[trigger] names_next(links, all, k) by {
            assert(all[k] == before[k]);
            if k < steps - 1 {
                assert(all[k + 1] == before[k + 1]);
                assert(names_next(links, before, k));
            }
        }
    }
}

/// Where every texture that is left waits for another that is left, one of
/// them reaches itself.
proof fn lemma_stuck_is_circular(links: Seq<TextureLink>, placed: Seq<bool>, from: int)
    requires
        valid_links(links),
        placed.len() == links.len(),
        stuck(links, placed),
        0 <= from < links.len(),
        !placed[from],
    ensures
        circular(links),
{
    let n = links.len();
    let all = trail(links, placed, from, n);
    lemma_trail(links, placed, from, n);
    lemma_two_are_the_same(all, n as int);
    let (i, j) = choose|i: int, j: int| 0 <= i < j < all.len() && all[i] == all[j];
    let chain = all.subrange(i, j + 1);
    assert forall|k: int| 0 <= k < chain.len() implies 0 <= #[trigger] chain[k] < links.len() by {
        assert(chain[k] == all[i + k]);
    }
    assert forall|k: int| 0 <= k < chain.len() - 1 implies #[trigger] names_next(
        links,
        chain,
        k,
    ) by {
        assert(chain[k] == all[i + k]);
        assert(chain[k + 1] == all[i + k + 1]);
        assert(names_next(links, all, i + k));
    }
    assert(is_chain(links, chain));
    assert(chain[0] == chain[chain.len() - 1]);
}

/// Puts the textures in an order in which each checker stands behind the
/// two textures it names, or fails where there is no such order: where a
/// checker reaches itself.
pub fn arrange(links: &Vec<TextureLink>) -> (order: Option<Vec<usize>>)
    requires
        valid_links(links@),
    ensures
        order is Some <==> !circular(links@),
        order matches Some(o) ==> ordered(links@, o@),
{
    let n = links.len();
    let mut placed: Vec<bool> = Vec::new();
    while placed.len() < n
        invariant
            n == links@.len(),
            placed@.len() <= n,
            forall|i: int| 0 <= i < placed@.len() ==> !placed@[i],
        decreases n - placed@.len(),
    {
        placed.push(false);
    }
    let mut order: Vec<usize> = Vec::new();
    loop
        invariant
            n == links@.len(),
            valid_links(links@),
            arranged(links@, placed@, order@),
        ensures
            arranged(links@, placed@, order@),
            stuck(links@, placed@),
        decreases falses(placed@),
    {
        let ghost start = placed@;
        let mut progress = false;
        let mut i: usize = 0;
        while i < n
            invariant
                i <= n,
                n == links@.len(),
                valid_links(links@),
                arranged(links@, placed@, order@),
                !progress ==> placed@ == start,
                progress ==> falses(placed@) < falses(start),
                !progress ==> forall|j: int|
                    0 <= j < i && !placed@[j] ==> #[trigger] waiting(links@, placed@, j),
            decreases n - i,
        {
            if !placed[i] {
                let ready = match links[i] {
                    TextureLink::Solid => true,
                    TextureLink::Checker(a, b) => placed[a] && placed[b],
                };
                if ready {
                    proof {
                        lemma_falses_update(placed@, i as int);
                        lemma_arranged_push(links@, placed@, order@, i);
                    }
                    placed[i] = true;
                    order.push(i);
                    progress = true;
                }
            }
            i = i + 1;
        }
        if !progress {
            break;
        }
    }
    let mut k: usize = 0;
    while k < n
        invariant
            k <= n,
            n == links@.len(),
            valid_links(links@),
            arranged(links@, placed@, order@),
            stuck(links@, placed@),
            forall|j: int| 0 <= j < k ==> placed@[j],
        decreases n - k,
    {
        if !placed[k] {
            proof {
                lemma_stuck_is_circular(links@, placed@, k as int);
            }
            return None;
        }
        k = k + 1;
    }
    proof {
        assert(ordered(links@, order@));
        lemma_ordered_is_not_circular(links@, order@);
    }
    Some(order)
}

/// Resolves every name of a description and puts the textures in an order
/// in which they can be made. Fails if a name stands for nothing (a
/// checker or a material that names no texture, an object that names no
/// material) or if a checker reaches itself through the textures it
/// names, and only then: the order in which textures and materials are
/// listed does not matter.
pub fn transform(
    textures: &Vec<TextureEntry>,
    materials: &Vec<MaterialEntry>,
    objects: &Vec<String>,
) -> (result: Option<Links>)
    ensures
        result is Some <==> resolvable(textures@, materials@, objects@) && !circular(
            links_of(textures@),
        ),
        result matches Some(links) ==> resolves(links, textures@, materials@, objects@),
{
    let mut texture_links: Vec<TextureLink> = Vec::new();
    let mut i: usize = 0;
    while i < textures.len()
        invariant
            i <= textures@.len(),
            texture_links@.len() == i,
            valid_links_below(texture_links@, textures@.len()),
            forall|k: int|
                0 <= k < i ==> texture_link(textures@, k) == Some(#[trigger] texture_links@[k]),
        decreases textures@.len() - i,
    {
        match link_texture(textures, i) {
            Some(link) => {
                texture_links.push(link);
            },
            None => {
                proof {
                    lemma_texture_link_borne(textures@, i as int);
                    assert(!texture_refs_borne(texture_names(textures@), textures@[i as int].refs));
                }
                return None;
            },
        }
        i = i + 1;
    }
    let mut material_links: Vec<MaterialLink> = Vec::new();
    let mut j: usize = 0;
    while j < materials.len()
        invariant
            j <= materials@.len(),
            material_links@.len() == j,
            forall|k: int|
                0 <= k < j ==> material_link(texture_names(textures@), materials@[k].refs)
                    == Some(#[trigger] material_links@[k]),
        decreases materials@.len() - j,
    {
        match link_material(textures, &materials[j].refs) {
            Some(link) => {
                material_links.push(link);
            },
            None => {
                proof {
                    assert(texture_names(textures@).len() == textures.len());
                    lemma_material_link_borne(texture_names(textures@), materials@[j as int].refs);
                    assert(!material_refs_borne(
                        texture_names(textures@),
                        materials@[j as int].refs,
                    ));
                }
                return None;
            },
        }
        j = j + 1;
    }
    let mut object_links: Vec<usize> = Vec::new();
    let mut n: usize = 0;
    while n < objects.len()
        invariant
            n <= objects@.len(),
            object_links@.len() == n,
            forall|k: int|
                0 <= k < n ==> lookup(
                    material_names(materials@),
                    materials@.len() as int,
                    objects@[k]@,
                ) == Some(#[trigger] object_links@[k]),
        decreases objects@.len() - n,
    {
        match find_material(materials, &objects[n]) {
            Some(m) => {
                object_links.push(m);
            },
            None => {
                proof {
                    assert(material_names(materials@).len() == materials.len());
                    lemma_lookup_borne(material_names(materials@), objects@[n as int]@);
                    assert(!borne(material_names(materials@), objects@[n as int]@));
                }
                return None;
            },
        }
        n = n + 1;
    }
    proof {
        assert(texture_links@ =~= links_of(textures@));
        assert forall|k: int| 0 <= k < textures@.len() implies texture_refs_borne(
            texture_names(textures@),
            (#[trigger] textures@[k]).refs,
        ) by {
            assert(texture_link(textures@, k) == Some(texture_links@[k]));
            lemma_texture_link_borne(textures@, k);
        }
        assert forall|k: int| 0 <= k < materials@.len() implies material_refs_borne(
            texture_names(textures@),
            (#[trigger] materials@[k]).refs,
        ) by {
            assert(material_link(texture_names(textures@), materials@[k].refs) == Some(
                material_links@[k],
            ));
            lemma_material_link_borne(texture_names(textures@), materials@[k].refs);
        }
        assert forall|k: int| 0 <= k < objects@.len() implies borne(
            material_names(materials@),
            (#[trigger] objects@[k])@,
        ) by {
            assert(lookup(material_names(materials@), materials@.len() as int, objects@[k]@)
                == Some(object_links@[k]));
            lemma_lookup_borne(material_names(materials@), objects@[k]@);
        }
    }
    match arrange(&texture_links) {
        Some(order) => Some(
            Links {
                textures: texture_links,
                order,
                materials: material_links,
                objects: object_links,
            },
        ),
        None => None,
    }
}

} // verus!
