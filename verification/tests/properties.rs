use disqualified::collapse_type_name;
use disqualified::shorten;
use disqualified::DisplayShortName;
use disqualified::ShortName;

#[test]
fn original_is_kept() {
    let name = ShortName("alloc::vec::Vec<u32>");
    assert_eq!(name.original(), "alloc::vec::Vec<u32>");
    assert_eq!(name.shortened(), "Vec<u32>");
}

#[test]
fn from_str_conversion() {
    let name = ShortName::from("core::option::Option<u32>");
    assert_eq!(name.original(), "core::option::Option<u32>");
    assert_eq!(name.shortened(), "Option<u32>");
}

#[test]
fn display_wrapper() {
    assert_eq!(
        DisplayShortName("bevy_prelude::make_fun_game").shortened(),
        "make_fun_game"
    );
}

#[test]
fn module_stripping_through_nesting() {
    assert_eq!(shorten("mod::f<mod2::T1, mod3::T2>"), "f<T1, T2>");
}

#[test]
fn post_bracket_path_continuation() {
    assert_eq!(
        shorten("pkg::Assets<pkg2::Scene>::event_system"),
        "Assets<Scene>::event_system"
    );
}

#[test]
fn idempotent_on_concrete_names() {
    let inputs = [
        "bevy_render::camera::camera::extract_cameras<bevy_render::camera::bundle::Camera3d>",
        "bevy_asset::assets::Assets<bevy_scene::dynamic_scene::DynamicScene>::asset_event_system",
        "Option::Some(2)",
        "(String, String)",
        "bévï::camérą::łørđ::_öñîòñ<ķràźÿ::Москва::東京>",
    ];
    for input in inputs {
        let once = shorten(input);
        let twice = shorten(&once);
        assert_eq!(twice, once);
    }
}

#[test]
fn boundary_characters_are_preserved() {
    let input = "bevy::a::do_it<m::Test<m::Tube>, [i32; 4], (n::A, n::B)>";
    let special = " <>()[],;";
    let boundaries = |s: &str| -> Vec<char> { s.chars().filter(|c| special.contains(*c)).collect() };
    assert_eq!(boundaries(&shorten(input)), boundaries(input));
}

#[test]
fn collapses_to_last_segment() {
    assert_eq!(collapse_type_name("alloc::vec::Vec"), "Vec");
    assert_eq!(collapse_type_name("make_fun_game"), "make_fun_game");
}

#[test]
fn collapse_keeps_uppercase_parent_segment() {
    assert_eq!(collapse_type_name("bevy_render::RenderSet::Prepare"), "RenderSet::Prepare");
    assert_eq!(collapse_type_name("a::B::C::D"), "C::D");
}

#[test]
fn degenerate_separators() {
    assert_eq!(shorten(""), "");
    assert_eq!(shorten("::"), "");
    assert_eq!(shorten("a::"), "");
    assert_eq!(shorten("A::"), "A::");
}

#[test]
fn space_is_a_boundary() {
    assert_eq!(shorten("dyn core::any::Any"), "dyn Any");
}
