use engine::assets::{RenderBodyHandle, Sound, SoundHandle};
use engine::input::MouseButton;
use engine::physics::PhysicsType;

#[test]
fn sound_keeps_its_fields() {
    let s = Sound::new(SoundHandle(42), String::from("click.wav"), 48_000, 2, vec![1, 2, 3]);
    assert_eq!(s.id, SoundHandle(42));
    assert_eq!(s.source, "click.wav");
    assert_eq!(s.sample_rate, 48_000);
    assert_eq!(s.channels, 2);
    assert_eq!(s.data, vec![1, 2, 3]);
}

#[test]
fn render_body_handles_order_by_index() {
    assert!(RenderBodyHandle(1) < RenderBodyHandle(2));
    assert_eq!(RenderBodyHandle::default(), RenderBodyHandle(0));
}

#[test]
fn plain_enums_compare() {
    assert_ne!(MouseButton::Back, MouseButton::Forward);
    assert_ne!(PhysicsType::Static, PhysicsType::Kinematic);
}
