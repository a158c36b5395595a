use disqualified::ShortName;

#[test]
fn trivial() {
    assert_eq!(ShortName("test_system").shortened(), "test_system");
}

#[test]
fn path_separated() {
    assert_eq!(
        ShortName("bevy_prelude::make_fun_game").shortened(),
        "make_fun_game"
    );
}

#[test]
fn tuple_type() {
    assert_eq!(
        ShortName("(String, String)").shortened(),
        "(String, String)"
    );
}

#[test]
fn array_type() {
    assert_eq!(ShortName("[i32; 3]").shortened(), "[i32; 3]");
}

#[test]
fn trivial_generics() {
    assert_eq!(ShortName("a<B>").shortened(), "a<B>");
}

#[test]
fn multiple_type_parameters() {
    assert_eq!(ShortName("a<B, C>").shortened(), "a<B, C>");
}

#[test]
fn enums() {
    assert_eq!(ShortName("Option::None").shortened(), "Option::None");
    assert_eq!(ShortName("Option::Some(2)").shortened(), "Option::Some(2)");
    assert_eq!(
        ShortName("bevy_render::RenderSet::Prepare").shortened(),
        "RenderSet::Prepare"
    );
}

#[test]
fn generics() {
    assert_eq!(
        ShortName("bevy_render::camera::camera::extract_cameras<bevy_render::camera::bundle::Camera3d>").shortened(),
        "extract_cameras<Camera3d>"
    );
}

#[test]
fn utf8_generics() {
    assert_eq!(
        ShortName("bévï::camérą::łørđ::_öñîòñ<ķràźÿ::Москва::東京>").shortened(),
        "_öñîòñ<東京>"
    );
}

#[test]
fn nested_generics() {
    assert_eq!(
        ShortName("bevy::mad_science::do_mad_science<mad_science::Test<mad_science::Tube>, bavy::TypeSystemAbuse>").shortened(),
        "do_mad_science<Test<Tube>, TypeSystemAbuse>"
    );
}

#[test]
fn sub_path_after_closing_bracket() {
    assert_eq!(
        ShortName("bevy_asset::assets::Assets<bevy_scene::dynamic_scene::DynamicScene>::asset_event_system").shortened(),
        "Assets<DynamicScene>::asset_event_system"
    );
    assert_eq!(
        ShortName("(String, String)::default").shortened(),
        "(String, String)::default"
    );
    assert_eq!(
        ShortName("[i32; 16]::default").shortened(),
        "[i32; 16]::default"
    );
}
