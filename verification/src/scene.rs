//! From a scene description to materials and objects.
//!
//! A description names materials and lists objects that refer to them by
//! name. What was read of a description comes in as plain entries; this
//! module applies the defaults, tells the kinds apart, resolves the names and
//! says which descriptions are rejected.

use vstd::prelude::*;
use vstd::string::StringExecFns;
use crate::cylinder::Cylinder;
use crate::material::{Colour, Lambertian, Material, Metal};
use crate::quad::Plane;
use crate::scalar::{Scalar, ONE_BITS};
use crate::sphere::Sphere;
use crate::vector3::{vector_of, Point3, Vector3};

verus! {

/// The pattern of minus six.
pub const MINUS_SIX_BITS: u64 = 0xc018_0000_0000_0000;

/// The pattern of twelve.
pub const TWELVE_BITS: u64 = 0x4028_0000_0000_0000;

/// The pattern of one half.
pub const HALF_BITS: u64 = 0x3fe0_0000_0000_0000;

/// The pattern of minus one half.
pub const MINUS_HALF_BITS: u64 = 0xbfe0_0000_0000_0000;

/// The pattern of minus one.
pub const MINUS_ONE_BITS: u64 = 0xbff0_0000_0000_0000;

/// The pattern of the binary64 value nearest to six tenths.
pub const SIX_TENTHS_BITS: u64 = 0x3fe3_3333_3333_3333;

/// One item of a description's list of materials.
#[derive(Debug)]
pub enum MaterialEntry {
    /// The item is no mapping.
    Invalid,
    /// The item is a mapping without a key.
    Empty,
    /// The item's first key and what stands under it: the name, none where
    /// the key is no string; the `type`; the `colour`.
    Named { name: Option<String>, kind: Option<String>, colour: Option<Colour> },
}

/// One item of a description's list of objects: its `type`, its `mat` and
/// its geometry, each none where the item lacks it or holds it in another
/// shape.
#[derive(Debug)]
pub struct ObjectEntry {
    pub kind: Option<String>,
    pub mat: Option<String>,
    pub q: Option<Point3>,
    pub u: Option<Vector3>,
    pub v: Option<Vector3>,
    pub centre: Option<Point3>,
    pub a: Option<Point3>,
    pub b: Option<Point3>,
    pub radius: Option<Scalar>,
    pub height: Option<Scalar>,
}

/// An object of a scene, with its material as an index into the table.
#[derive(Clone, Copy, Debug, PartialEq, Eq, Structural)]
pub enum Object {
    Plane(Plane),
    Sphere(Sphere),
    /// The box with the opposite corners `a` and `b`.
    Cuboid { a: Point3, b: Point3, mat: usize },
    Cylinder(Cylinder),
}

/// Why a description is rejected. `index` counts the items of the list
/// from zero.
#[derive(Clone, Copy, Debug, PartialEq, Eq, Structural)]
pub enum SceneError {
    /// A material's name is no string.
    MaterialNameNotString { index: usize },
    /// An object has no `type`.
    MissingObjectType { index: usize },
    /// An object names a material that the table lacks.
    UnknownMaterial { index: usize },
}

/// What becomes of one object entry.
#[derive(Clone, Copy, Debug, PartialEq, Eq, Structural)]
pub enum ObjectOutcome {
    Built(Object),
    /// The entry's `type` is none that the library knows: it is passed over.
    Skipped,
    /// The entry has no `type`.
    NoType,
    /// The table lacks the entry's material.
    NoMaterial,
}

/// A material under its name.
pub struct NamedMaterial {
    pub name: String,
    pub material: Material,
}

/// The materials of a scene by name. A name's place in the table is the
/// first at which it stands, and stays the same for as long as the table
/// lives: objects hold their material as that place.
pub struct MaterialTable {
    pub entries: Vec<NamedMaterial>,
}

/// The material that an entry describes: a mirror where the `type` is
/// `Metal`, else diffuse; white where no colour is given.
pub open spec fn material_of(kind: Option<String>, colour: Option<Colour>) -> Material {
    let albedo = match colour {
        Some(c) => c,
        None => vector_of(ONE_BITS, ONE_BITS, ONE_BITS),
    };
    match kind {
        Some(k) => if k@ == "Metal"@ {
            Material::Metal(Metal { albedo })
        } else {
            Material::Lambertian(Lambertian { albedo })
        },
        None => Material::Lambertian(Lambertian { albedo }),
    }
}

/// The materials that the entries name, later entries replacing earlier
/// ones of the same name. Items that are no mapping or have no key add
/// nothing; neither does a name that is no string.
pub open spec fn materials_named(entries: Seq<MaterialEntry>) -> Map<Seq<char>, Material>
    decreases entries.len(),
{
    if entries.len() == 0 {
        Map::empty()
    } else {
        let before = materials_named(entries.drop_last());
        match entries.last() {
            MaterialEntry::Named { name: Some(n), kind, colour } => before.insert(
                n@,
                material_of(kind, colour),
            ),
            _ => before,
        }
    }
}

/// The first entry whose name is no string, if there is one.
pub open spec fn first_unnamed(entries: Seq<MaterialEntry>) -> Option<int>
    decreases entries.len(),
{
    if entries.len() == 0 {
        None
    } else {
        match first_unnamed(entries.drop_last()) {
            Some(i) => Some(i),
            None => match entries.last() {
                MaterialEntry::Named { name: None, .. } => Some(entries.len() - 1),
                _ => None,
            },
        }
    }
}

impl MaterialTable {
    /// Whether `i` is the place of `name` in the table: the first at which
    /// the name stands.
    pub open spec fn holds_at(self, name: Seq<char>, i: int) -> bool {
        &&& 0 <= i < self.entries.len()
        &&& self.entries[i].name@ == name
        &&& forall|k: int| 0 <= k < i ==> self.entries[k].name@ != name
    }

    /// The place of `name` in the table.
    pub open spec fn index_of(self, name: Seq<char>) -> Option<usize> {
        if exists|i: int| self.holds_at(name, i) {
            Some((choose|i: int| self.holds_at(name, i)) as usize)
        } else {
            None
        }
    }

    pub fn new() -> (t: MaterialTable)
        ensures
            t@ == Map::<Seq<char>, Material>::empty(),
            t.entries.len() == 0,
    {
        let t = MaterialTable { entries: Vec::new() };
        assert(t@ =~= Map::<Seq<char>, Material>::empty());
        t
    }

    /// Where the table holds `name`.
    pub fn lookup(&self, name: &String) -> (r: Option<usize>)
        ensures
            r == self.index_of(name@),
            r matches Some(i) ==> self.holds_at(name@, i as int) && self@.dom().contains(name@)
                && self@[name@] == self.entries[i as int].material,
            r is None ==> !self@.dom().contains(name@),
    {
        let mut i: usize = 0;
        while i < self.entries.len()
            invariant
                i <= self.entries.len(),
                forall|k: int| 0 <= k < i ==> self.entries[k].name@ != name@,
            decreases self.entries.len() - i,
        {
            if self.entries[i].name == *name {
                proof {
                    self.lemma_place(name@, i as int);
                }
                return Some(i);
            }
            i += 1;
        }
        assert(forall|k: int| !self.holds_at(name@, k));
        None
    }

    /// Two tables that hold a name at the same places give it the same
    /// place.
    proof fn lemma_same_places(self, other: MaterialTable, name: Seq<char>)
        requires
            forall|k: int| self.holds_at(name, k) == other.holds_at(name, k),
        ensures
            self.index_of(name) == other.index_of(name),
    {
        if exists|k: int| self.holds_at(name, k) {
            let k = choose|k: int| self.holds_at(name, k);
            assert(other.holds_at(name, k));
            self.lemma_place(name, k);
            other.lemma_place(name, k);
        } else {
            assert(forall|k: int| !other.holds_at(name, k));
        }
    }

    /// A name has one place at most.
    proof fn lemma_place(self, name: Seq<char>, i: int)
        requires
            self.holds_at(name, i),
        ensures
            self.index_of(name) == Some(i as usize),
            self@.dom().contains(name),
            self@[name] == self.entries[i].material,
    {
        let j = choose|j: int| self.holds_at(name, j);
        assert(j == i);
    }

    /// The material at a place.
    pub fn get(&self, index: usize) -> (m: Material)
        requires
            index < self.entries.len(),
        ensures
            m == self.entries[index as int].material,
    {
        self.entries[index].material
    }

    /// The number of places.
    pub fn len(&self) -> (n: usize)
        ensures
            n == self.entries.len(),
    {
        self.entries.len()
    }

    /// Puts `material` under `name`: at the name's place where it has one,
    /// and at a new last place where it has none.
    pub fn insert(&mut self, name: String, material: Material)
        ensures
            final(self)@ == old(self)@.insert(name@, material),
            final(self).entries.len() >= old(self).entries.len(),
            forall|n: Seq<char>|
                old(self).index_of(n) is Some ==> #[trigger] final(self).index_of(n) == old(
                    self,
                ).index_of(n),
    {
        let ghost before = *self;
        let ghost key = name@;
        match self.lookup(&name) {
            Some(i) => {
                self.entries[i] = NamedMaterial { name, material };
                proof {
                    assert forall|n: Seq<char>| #[trigger] self.index_of(n) == before.index_of(n) by {
                        assert forall|k: int| self.holds_at(n, k) == before.holds_at(n, k) by {
                            assert(forall|j: int|
                                0 <= j < self.entries.len() ==> self.entries[j].name@
                                    == before.entries[j].name@);
                        }
                        before.lemma_same_places(*self, n);
                    }
                    self.lemma_place(key, i as int);
                    assert forall|n: Seq<char>| n != key && before.index_of(n) is Some implies
                        self.entries[self.index_of(n).unwrap() as int].material
                        == before.entries[before.index_of(n).unwrap() as int].material by {
                        let k = choose|k: int| before.holds_at(n, k);
                        assert(before.holds_at(n, k));
                    }
                }
            },
            None => {
                self.entries.push(NamedMaterial { name, material });
                proof {
                    let last = before.entries.len() as int;
                    assert(forall|k: int| !before.holds_at(key, k));
                    assert forall|k: int| 0 <= k < last implies self.entries[k].name@ != key by {
                        if self.entries[k].name@ == key {
                            before.lemma_first_place(key, k);
                        }
                    }
                    self.lemma_place(key, last);
                    assert forall|n: Seq<char>| n != key implies #[trigger] self.index_of(n)
                        == before.index_of(n) by {
                        assert forall|k: int| self.holds_at(n, k) == before.holds_at(n, k) by {
                            assert(forall|j: int|
                                0 <= j < last ==> self.entries[j].name@ == before.entries[j].name@);
                            assert(self.entries[last].name@ == key);
                        }
                        before.lemma_same_places(*self, n);
                    }
                    assert forall|n: Seq<char>| n != key && before.index_of(n) is Some implies
                        self.entries[self.index_of(n).unwrap() as int].material
                        == before.entries[before.index_of(n).unwrap() as int].material by {
                        let k = choose|k: int| before.holds_at(n, k);
                        assert(before.holds_at(n, k));
                    }
                }
            },
        }
        assert(self@ =~= before@.insert(key, material));
    }

    /// A name that stands somewhere in the table has a place.
    proof fn lemma_first_place(self, name: Seq<char>, k: int)
        requires
            0 <= k < self.entries.len(),
            self.entries[k].name@ == name,
        ensures
            exists|i: int| self.holds_at(name, i),
        decreases k,
    {
        if forall|j: int| 0 <= j < k ==> self.entries[j].name@ != name {
            assert(self.holds_at(name, k));
        } else {
            let j = choose|j: int| 0 <= j < k && self.entries[j].name@ == name;
            self.lemma_first_place(name, j);
        }
    }
}

impl View for MaterialTable {
    type V = Map<Seq<char>, Material>;

    open spec fn view(&self) -> Map<Seq<char>, Material> {
        Map::new(
            |n: Seq<char>| self.index_of(n) is Some,
            |n: Seq<char>| self.entries[self.index_of(n).unwrap() as int].material,
        )
    }
}

/// A vector, or the default where there is none.
pub open spec fn vector_or(v: Option<Vector3>, x: u64, y: u64, z: u64) -> Vector3 {
    match v {
        Some(v) => v,
        None => vector_of(x, y, z),
    }
}

/// A scalar, or the default where there is none.
pub open spec fn scalar_or(s: Option<Scalar>, bits: u64) -> Scalar {
    match s {
        Some(s) => s,
        None => Scalar { bits },
    }
}

/// The name of an entry's material: the empty name where it gives none.
pub open spec fn material_name(entry: ObjectEntry) -> Seq<char> {
    match entry.mat {
        Some(n) => n@,
        None => Seq::empty(),
    }
}

/// Whether a `type` is one of the four that the library knows.
pub open spec fn known_kind(kind: Seq<char>) -> bool {
    kind == "Plane"@ || kind == "Sphere"@ || kind == "Cuboid"@ || kind == "Cylinder"@
}

/// The object that an entry of a known kind describes, with the defaults in
/// place of what it leaves out.
pub open spec fn shape_of(entry: ObjectEntry, kind: Seq<char>, mat: usize) -> Object {
    if kind == "Plane"@ {
        Object::Plane(
            Plane {
                q: vector_or(entry.q, MINUS_SIX_BITS, MINUS_HALF_BITS, MINUS_SIX_BITS),
                u: vector_or(entry.u, TWELVE_BITS, 0, 0),
                v: vector_or(entry.v, 0, 0, TWELVE_BITS),
                mat,
            },
        )
    } else if kind == "Sphere"@ {
        Object::Sphere(
            Sphere { centre: vector_or(entry.centre, 0, 0, 0), radius: scalar_or(entry.radius, ONE_BITS), mat },
        )
    } else if kind == "Cuboid"@ {
        Object::Cuboid {
            a: vector_or(entry.a, MINUS_ONE_BITS, MINUS_HALF_BITS, MINUS_ONE_BITS),
            b: vector_or(entry.b, ONE_BITS, HALF_BITS, ONE_BITS),
            mat,
        }
    } else {
        Object::Cylinder(
            Cylinder {
                center: vector_or(entry.centre, 0, HALF_BITS, 0),
                radius: scalar_or(entry.radius, SIX_TENTHS_BITS),
                height: scalar_or(entry.height, ONE_BITS),
                m: mat,
            },
        )
    }
}

/// What becomes of one entry against a table of materials.
pub open spec fn object_of(entry: ObjectEntry, table: MaterialTable) -> ObjectOutcome {
    match entry.kind {
        None => ObjectOutcome::NoType,
        Some(k) => if !known_kind(k@) {
            ObjectOutcome::Skipped
        } else {
            match table.index_of(material_name(entry)) {
                None => ObjectOutcome::NoMaterial,
                Some(mat) => ObjectOutcome::Built(shape_of(entry, k@, mat)),
            }
        },
    }
}

/// The objects that the entries describe, in their order, or the error of
/// the first entry that is rejected.
pub open spec fn objects_of(entries: Seq<ObjectEntry>, table: MaterialTable) -> Result<
    Seq<Object>,
    SceneError,
>
    decreases entries.len(),
{
    if entries.len() == 0 {
        Ok(Seq::empty())
    } else {
        let index = (entries.len() - 1) as usize;
        match objects_of(entries.drop_last(), table) {
            Err(e) => Err(e),
            Ok(objects) => match object_of(entries.last(), table) {
                ObjectOutcome::Built(o) => Ok(objects.push(o)),
                ObjectOutcome::Skipped => Ok(objects),
                ObjectOutcome::NoType => Err(SceneError::MissingObjectType { index }),
                ObjectOutcome::NoMaterial => Err(SceneError::UnknownMaterial { index }),
            },
        }
    }
}

fn make_vector(x: u64, y: u64, z: u64) -> (v: Vector3)
    ensures
        v == vector_of(x, y, z),
{
    Vector3::new(Scalar::from_bits(x), Scalar::from_bits(y), Scalar::from_bits(z))
}

fn vector_or_default(v: &Option<Vector3>, x: u64, y: u64, z: u64) -> (r: Vector3)
    ensures
        r == vector_or(*v, x, y, z),
{
    match v {
        Some(v) => *v,
        None => make_vector(x, y, z),
    }
}

fn scalar_or_default(s: &Option<Scalar>, bits: u64) -> (r: Scalar)
    ensures
        r == scalar_or(*s, bits),
{
    match s {
        Some(s) => *s,
        None => Scalar::from_bits(bits),
    }
}

/// The material that a `type` and a `colour` describe.
pub fn make_material(kind: &Option<String>, colour: &Option<Colour>) -> (m: Material)
    ensures
        m == material_of(*kind, *colour),
{
    let albedo = vector_or_default(colour, ONE_BITS, ONE_BITS, ONE_BITS);
    match kind {
        Some(k) => {
            if *k == "Metal".to_owned() {
                Material::Metal(Metal::new(albedo))
            } else {
                Material::Lambertian(Lambertian::new(albedo))
            }
        },
        None => Material::Lambertian(Lambertian::new(albedo)),
    }
}

/// Builds the table of the materials that a description names. A later
/// entry replaces an earlier one of the same name; an item that is no
/// mapping or has no key is passed over. The description is rejected where
/// a name is no string.
pub fn extract_materials(entries: &Vec<MaterialEntry>) -> (r: Result<MaterialTable, SceneError>)
    ensures
        match r {
            Ok(table) => {
                &&& first_unnamed(entries@) is None
                &&& table@ == materials_named(entries@)
            },
            Err(e) => {
                &&& first_unnamed(entries@) matches Some(i)
                &&& e == SceneError::MaterialNameNotString { index: i as usize }
            },
        },
{
    let mut materials = MaterialTable::new();
    let mut i: usize = 0;
    while i < entries.len()
        invariant
            i <= entries.len(),
            first_unnamed(entries@.take(i as int)) is None,
            materials@ == materials_named(entries@.take(i as int)),
        decreases entries.len() - i,
    {
        assert(entries@.take(i + 1).drop_last() == entries@.take(i as int));
        match &entries[i] {
            MaterialEntry::Named { name, kind, colour } => {
                let material = make_material(kind, colour);
                match name {
                    Some(n) => {
                        materials.insert(n.clone(), material);
                    },
                    None => {
                        proof {
                            lemma_first_unnamed_stays(entries@, i + 1);
                        }
                        return Err(SceneError::MaterialNameNotString { index: i });
                    },
                }
            },
            _ => {},
        }
        i += 1;
    }
    assert(entries@.take(i as int) == entries@);
    Ok(materials)
}

/// The first unnamed entry of a prefix is the first of the whole list.
proof fn lemma_first_unnamed_stays(entries: Seq<MaterialEntry>, n: int)
    requires
        0 <= n <= entries.len(),
        first_unnamed(entries.take(n)) is Some,
    ensures
        first_unnamed(entries) == first_unnamed(entries.take(n)),
    decreases entries.len() - n,
{
    if n < entries.len() {
        assert(entries.take(n + 1).drop_last() == entries.take(n));
        lemma_first_unnamed_stays(entries, n + 1);
    } else {
        assert(entries.take(n) == entries);
    }
}

/// Whether the library knows a `type`.
pub fn is_known_kind(kind: &String) -> (r: bool)
    ensures
        r == known_kind(kind@),
{
    *kind == "Plane".to_owned() || *kind == "Sphere".to_owned() || *kind == "Cuboid".to_owned()
        || *kind == "Cylinder".to_owned()
}

/// Decides what becomes of one entry.
pub fn classify(entry: &ObjectEntry, materials: &MaterialTable) -> (r: ObjectOutcome)
    ensures
        r == object_of(*entry, *materials),
        r matches ObjectOutcome::Built(o) ==> o.material() < materials.entries.len(),
{
    match &entry.kind {
        None => ObjectOutcome::NoType,
        Some(k) => {
            if !is_known_kind(k) {
                return ObjectOutcome::Skipped;
            }
            let found = match &entry.mat {
                Some(n) => materials.lookup(n),
                None => {
                    let empty = String::new();
                    materials.lookup(&empty)
                },
            };
            let mat = match found {
                Some(mat) => mat,
                None => {
                    return ObjectOutcome::NoMaterial;
                },
            };
            let object = if *k == "Plane".to_owned() {
                Object::Plane(
                    Plane::new(
                        vector_or_default(&entry.q, MINUS_SIX_BITS, MINUS_HALF_BITS, MINUS_SIX_BITS),
                        vector_or_default(&entry.u, TWELVE_BITS, 0, 0),
                        vector_or_default(&entry.v, 0, 0, TWELVE_BITS),
                        mat,
                    ),
                )
            } else if *k == "Sphere".to_owned() {
                Object::Sphere(
                    Sphere::new(
                        vector_or_default(&entry.centre, 0, 0, 0),
                        scalar_or_default(&entry.radius, ONE_BITS),
                        mat,
                    ),
                )
            } else if *k == "Cuboid".to_owned() {
                Object::Cuboid {
                    a: vector_or_default(&entry.a, MINUS_ONE_BITS, MINUS_HALF_BITS, MINUS_ONE_BITS),
                    b: vector_or_default(&entry.b, ONE_BITS, HALF_BITS, ONE_BITS),
                    mat,
                }
            } else {
                Object::Cylinder(
                    Cylinder::new(
                        vector_or_default(&entry.centre, 0, HALF_BITS, 0),
                        scalar_or_default(&entry.radius, SIX_TENTHS_BITS),
                        scalar_or_default(&entry.height, ONE_BITS),
                        mat,
                    ),
                )
            };
            ObjectOutcome::Built(object)
        },
    }
}

impl Object {
    /// The object's material, as an index into the table.
    pub open spec fn material(self) -> usize {
        match self {
            Object::Plane(p) => p.mat,
            Object::Sphere(s) => s.mat,
            Object::Cuboid { mat, .. } => mat,
            Object::Cylinder(c) => c.m,
        }
    }
}

/// Builds the objects that a description lists, in their order. An entry
/// of an unknown `type` is passed over. The description is rejected at the
/// first entry that has no `type` or whose material the table lacks.
pub fn extract_objects(entries: &Vec<ObjectEntry>, materials: &MaterialTable) -> (r: Result<
    Vec<Object>,
    SceneError,
>)
    ensures
        match r {
            Ok(objects) => {
                &&& objects_of(entries@, *materials) == Ok::<Seq<Object>, SceneError>(objects@)
                &&& forall|k: int|
                    0 <= k < objects.len() ==> (#[trigger] objects[k]).material()
                        < materials.entries.len()
            },
            Err(e) => objects_of(entries@, *materials) == Err::<Seq<Object>, SceneError>(e),
        },
{
    let mut objects: Vec<Object> = Vec::new();
    let mut i: usize = 0;
    while i < entries.len()
        invariant
            i <= entries.len(),
            objects_of(entries@.take(i as int), *materials) == Ok::<Seq<Object>, SceneError>(
                objects@,
            ),
            forall|k: int|
                0 <= k < objects.len() ==> (#[trigger] objects[k]).material()
                    < materials.entries.len(),
        decreases entries.len() - i,
    {
        assert(entries@.take(i + 1).drop_last() == entries@.take(i as int));
        match classify(&entries[i], materials) {
            ObjectOutcome::Built(o) => {
                objects.push(o);
            },
            ObjectOutcome::Skipped => {},
            ObjectOutcome::NoType => {
                proof {
                    lemma_rejection_stays(entries@, *materials, i + 1);
                }
                return Err(SceneError::MissingObjectType { index: i });
            },
            ObjectOutcome::NoMaterial => {
                proof {
                    lemma_rejection_stays(entries@, *materials, i + 1);
                }
                return Err(SceneError::UnknownMaterial { index: i });
            },
        }
        i += 1;
    }
    assert(entries@.take(i as int) == entries@);
    Ok(objects)
}

/// A list is rejected as its first rejected prefix is.
proof fn lemma_rejection_stays(entries: Seq<ObjectEntry>, table: MaterialTable, n: int)
    requires
        0 <= n <= entries.len(),
        objects_of(entries.take(n), table) is Err,
    ensures
        objects_of(entries, table) == objects_of(entries.take(n), table),
    decreases entries.len() - n,
{
    if n < entries.len() {
        assert(entries.take(n + 1).drop_last() == entries.take(n));
        lemma_rejection_stays(entries, table, n + 1);
    } else {
        assert(entries.take(n) == entries);
    }
}

} // verus!
