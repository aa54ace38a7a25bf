use rt::cylinder::Cylinder;
use rt::material::{Lambertian, Material, Metal};
use rt::quad::Plane;
use rt::scalar::Scalar;
use rt::scene::{
    classify, extract_materials, extract_objects, is_known_kind, make_material, MaterialEntry,
    MaterialTable, Object, ObjectEntry, ObjectOutcome, SceneError,
};
use rt::sphere::Sphere;
use rt::vector3::Vector3;

fn d(x: f64) -> Scalar {
    Scalar::from_bits(x.to_bits())
}

fn dv(x: f64, y: f64, z: f64) -> Vector3 {
    Vector3::new(d(x), d(y), d(z))
}

fn named(name: &str, kind: Option<&str>, colour: Option<Vector3>) -> MaterialEntry {
    MaterialEntry::Named {
        name: Some(name.to_string()),
        kind: kind.map(|k| k.to_string()),
        colour,
    }
}

fn blank(kind: Option<&str>, mat: Option<&str>) -> ObjectEntry {
    ObjectEntry {
        kind: kind.map(|k| k.to_string()),
        mat: mat.map(|m| m.to_string()),
        q: None,
        u: None,
        v: None,
        centre: None,
        a: None,
        b: None,
        radius: None,
        height: None,
    }
}

fn two_materials() -> MaterialTable {
    extract_materials(&vec![
        named("ground", None, Some(dv(0.8, 0.8, 0.0))),
        named("mirror", Some("Metal"), None),
    ])
    .unwrap()
}

#[test]
fn material_kind_and_colour_defaults() {
    let white = dv(1.0, 1.0, 1.0);
    assert_eq!(make_material(&None, &None), Material::Lambertian(Lambertian::new(white)));
    assert_eq!(
        make_material(&Some("Metal".to_string()), &None),
        Material::Metal(Metal::new(white))
    );
    assert_eq!(
        make_material(&Some("Lambertian".to_string()), &Some(dv(0.1, 0.2, 0.3))),
        Material::Lambertian(Lambertian::new(dv(0.1, 0.2, 0.3)))
    );
    assert_eq!(
        make_material(&Some("Glass".to_string()), &Some(dv(0.1, 0.2, 0.3))),
        Material::Lambertian(Lambertian::new(dv(0.1, 0.2, 0.3)))
    );
    assert_eq!(
        make_material(&Some("metal".to_string()), &None),
        Material::Lambertian(Lambertian::new(white))
    );
}

#[test]
fn materials_are_found_by_name() {
    let table = two_materials();
    assert_eq!(table.len(), 2);
    let ground = table.lookup(&"ground".to_string()).unwrap();
    let mirror = table.lookup(&"mirror".to_string()).unwrap();
    assert_ne!(ground, mirror);
    assert_eq!(table.get(ground), Material::Lambertian(Lambertian::new(dv(0.8, 0.8, 0.0))));
    assert_eq!(table.get(mirror), Material::Metal(Metal::new(dv(1.0, 1.0, 1.0))));
    assert_eq!(table.lookup(&"glass".to_string()), None);
    assert_eq!(table.lookup(&"".to_string()), None);
    assert_eq!(table.lookup(&"Ground".to_string()), None);
}

#[test]
fn a_later_material_replaces_an_earlier_one_of_the_same_name() {
    let table = extract_materials(&vec![
        named("a", None, Some(dv(0.1, 0.1, 0.1))),
        named("b", None, None),
        named("a", Some("Metal"), Some(dv(0.9, 0.9, 0.9))),
    ])
    .unwrap();
    assert_eq!(table.len(), 2);
    let a = table.lookup(&"a".to_string()).unwrap();
    assert_eq!(table.get(a), Material::Metal(Metal::new(dv(0.9, 0.9, 0.9))));
    let b = table.lookup(&"b".to_string()).unwrap();
    assert_eq!(table.get(b), Material::Lambertian(Lambertian::new(dv(1.0, 1.0, 1.0))));
}

#[test]
fn items_that_are_no_material_are_passed_over() {
    let table = extract_materials(&vec![
        MaterialEntry::Invalid,
        named("a", None, None),
        MaterialEntry::Empty,
    ])
    .unwrap();
    assert_eq!(table.len(), 1);
    assert!(table.lookup(&"a".to_string()).is_some());
    assert_eq!(extract_materials(&vec![]).unwrap().len(), 0);
}

#[test]
fn a_material_name_that_is_no_string_is_rejected() {
    let unnamed = || MaterialEntry::Named { name: None, kind: None, colour: None };
    let r = extract_materials(&vec![named("a", None, None), MaterialEntry::Invalid, unnamed(), unnamed()]);
    match r {
        Err(e) => assert_eq!(e, SceneError::MaterialNameNotString { index: 2 }),
        Ok(_) => panic!("accepted"),
    }
}

#[test]
fn table_insert_adds_or_replaces() {
    let mut table = MaterialTable::new();
    assert_eq!(table.len(), 0);
    table.insert("x".to_string(), Material::Metal(Metal::new(dv(0.5, 0.5, 0.5))));
    table.insert("y".to_string(), Material::Lambertian(Lambertian::new(dv(0.5, 0.5, 0.5))));
    let x = table.lookup(&"x".to_string()).unwrap();
    table.insert("x".to_string(), Material::Lambertian(Lambertian::new(dv(0.0, 0.0, 0.0))));
    assert_eq!(table.len(), 2);
    assert_eq!(table.lookup(&"x".to_string()), Some(x));
    assert_eq!(table.get(x), Material::Lambertian(Lambertian::new(dv(0.0, 0.0, 0.0))));
}

#[test]
fn known_kinds_are_the_four() {
    for k in ["Plane", "Sphere", "Cuboid", "Cylinder"] {
        assert!(is_known_kind(&k.to_string()));
    }
    for k in ["plane", "Torus", "", "Sphere ", "Lambertian"] {
        assert!(!is_known_kind(&k.to_string()));
    }
}

#[test]
fn objects_get_their_defaults() {
    let table = two_materials();
    let ground = table.lookup(&"ground".to_string()).unwrap();
    let objects = extract_objects(
        &vec![
            blank(Some("Plane"), Some("ground")),
            blank(Some("Sphere"), Some("ground")),
            blank(Some("Cuboid"), Some("ground")),
            blank(Some("Cylinder"), Some("ground")),
        ],
        &table,
    )
    .unwrap();
    assert_eq!(
        objects,
        vec![
            Object::Plane(Plane::new(dv(-6.0, -0.5, -6.0), dv(12.0, 0.0, 0.0), dv(0.0, 0.0, 12.0), ground)),
            Object::Sphere(Sphere::new(dv(0.0, 0.0, 0.0), d(1.0), ground)),
            Object::Cuboid { a: dv(-1.0, -0.5, -1.0), b: dv(1.0, 0.5, 1.0), mat: ground },
            Object::Cylinder(Cylinder::new(dv(0.0, 0.5, 0.0), d(0.6), d(1.0), ground)),
        ]
    );
}

#[test]
fn objects_take_what_the_description_gives() {
    let table = two_materials();
    let mirror = table.lookup(&"mirror".to_string()).unwrap();
    let mut plane = blank(Some("Plane"), Some("mirror"));
    plane.q = Some(dv(1.0, 2.0, 3.0));
    plane.v = Some(dv(0.0, 1.0, 0.0));
    plane.radius = Some(d(9.0));
    let mut sphere = blank(Some("Sphere"), Some("mirror"));
    sphere.centre = Some(dv(0.0, -100.5, -1.0));
    sphere.radius = Some(d(100.0));
    let mut cuboid = blank(Some("Cuboid"), Some("mirror"));
    cuboid.b = Some(dv(2.0, 2.0, 2.0));
    let mut cylinder = blank(Some("Cylinder"), Some("mirror"));
    cylinder.centre = Some(dv(1.0, 1.0, 1.0));
    cylinder.height = Some(d(3.0));
    let objects = extract_objects(&vec![plane, sphere, cuboid, cylinder], &table).unwrap();
    assert_eq!(
        objects,
        vec![
            Object::Plane(Plane::new(dv(1.0, 2.0, 3.0), dv(12.0, 0.0, 0.0), dv(0.0, 1.0, 0.0), mirror)),
            Object::Sphere(Sphere::new(dv(0.0, -100.5, -1.0), d(100.0), mirror)),
            Object::Cuboid { a: dv(-1.0, -0.5, -1.0), b: dv(2.0, 2.0, 2.0), mat: mirror },
            Object::Cylinder(Cylinder::new(dv(1.0, 1.0, 1.0), d(0.6), d(3.0), mirror)),
        ]
    );
}

#[test]
fn unknown_object_kinds_are_passed_over() {
    let table = two_materials();
    let objects = extract_objects(
        &vec![
            blank(Some("Torus"), Some("nowhere")),
            blank(Some("Sphere"), Some("mirror")),
            blank(Some("Mesh"), None),
        ],
        &table,
    )
    .unwrap();
    assert_eq!(objects.len(), 1);
    assert!(matches!(objects[0], Object::Sphere(_)));
    assert_eq!(classify(&blank(Some("Torus"), Some("mirror")), &table), ObjectOutcome::Skipped);
}

#[test]
fn an_object_without_a_type_is_rejected() {
    let table = two_materials();
    let r = extract_objects(
        &vec![blank(Some("Sphere"), Some("mirror")), blank(None, Some("mirror")), blank(None, None)],
        &table,
    );
    assert_eq!(r, Err(SceneError::MissingObjectType { index: 1 }));
    assert_eq!(classify(&blank(None, Some("mirror")), &table), ObjectOutcome::NoType);
}

#[test]
fn an_object_with_an_unknown_material_is_rejected() {
    let table = two_materials();
    let r = extract_objects(
        &vec![blank(Some("Torus"), None), blank(Some("Sphere"), Some("glass"))],
        &table,
    );
    assert_eq!(r, Err(SceneError::UnknownMaterial { index: 1 }));
    // without a `mat` the empty name is looked up
    let r = extract_objects(&vec![blank(Some("Plane"), None)], &table);
    assert_eq!(r, Err(SceneError::UnknownMaterial { index: 0 }));
    assert_eq!(classify(&blank(Some("Plane"), None), &table), ObjectOutcome::NoMaterial);
    let mut with_empty_name = two_materials();
    with_empty_name.insert("".to_string(), Material::Metal(Metal::new(dv(1.0, 1.0, 1.0))));
    let objects = extract_objects(&vec![blank(Some("Sphere"), None)], &with_empty_name).unwrap();
    assert_eq!(objects, vec![Object::Sphere(Sphere::new(dv(0.0, 0.0, 0.0), d(1.0), 2))]);
}

#[test]
fn the_first_rejected_object_decides() {
    let table = two_materials();
    let r = extract_objects(
        &vec![blank(Some("Sphere"), Some("glass")), blank(None, None)],
        &table,
    );
    assert_eq!(r, Err(SceneError::UnknownMaterial { index: 0 }));
    assert_eq!(extract_objects(&vec![], &table), Ok(vec![]));
}
