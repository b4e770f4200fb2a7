use engine::geometry::{Aabb, Vec3i, aabb_intersects, FAT_MARGIN};

fn cube(cx: i64, cy: i64, cz: i64, half: i64) -> Aabb {
    Aabb::new(
        Vec3i::new(cx - half, cy - half, cz - half),
        Vec3i::new(cx + half, cy + half, cz + half),
    )
}

#[test]
fn touching_boxes_intersect() {
    let a = cube(0, 0, 0, 1000);
    let b = cube(2000, 0, 0, 1000);
    assert!(aabb_intersects(&a, &b));
    assert!(aabb_intersects(&b, &a));
}

#[test]
fn separated_boxes_do_not_intersect() {
    let a = cube(0, 0, 0, 1000);
    let b = cube(2001, 0, 0, 1000);
    assert!(!aabb_intersects(&a, &b));
    let c = cube(0, 0, -2001, 1000);
    assert!(!aabb_intersects(&a, &c));
}

#[test]
fn fattened_box_grows_by_margin() {
    let a = cube(10, 20, 30, 5);
    let f = a.fattened();
    assert_eq!(f.min, Vec3i::new(5 - FAT_MARGIN, 15 - FAT_MARGIN, 25 - FAT_MARGIN));
    assert_eq!(f.max, Vec3i::new(15 + FAT_MARGIN, 25 + FAT_MARGIN, 35 + FAT_MARGIN));
    assert!(f.contains_box(&a));
    assert!(!a.contains_box(&f));
}

#[test]
fn surface_area_of_box() {
    let a = Aabb::new(Vec3i::new(0, 0, 0), Vec3i::new(2, 3, 4));
    assert_eq!(a.surface_area(), 52);
    let flat = Aabb::new(Vec3i::new(-1, -1, 7), Vec3i::new(1, 1, 7));
    assert_eq!(flat.surface_area(), 8);
}

#[test]
fn merged_box_holds_both() {
    let a = cube(0, 0, 0, 1);
    let b = cube(10, -10, 5, 2);
    let m = a.merged(&b);
    assert_eq!(m.min, Vec3i::new(-1, -12, -1));
    assert_eq!(m.max, Vec3i::new(12, 1, 7));
}
