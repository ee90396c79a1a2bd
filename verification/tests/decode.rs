use data_extractor::decode::decode_techniques;
use data_extractor::decode::trim_field;
use data_extractor::model::Location;
use data_extractor::model::Technique;

#[test]
fn two_techniques_in_one_cell() {
    assert_eq!(
        decode_techniques("2D digitale, 3D"),
        vec![Technique::DigitalTwoDimensional, Technique::ThreeDimensional]
    );
}

#[test]
fn techniques_follow_the_search_order_not_the_cell() {
    assert_eq!(
        decode_techniques("3D, 2D digitale"),
        vec![Technique::DigitalTwoDimensional, Technique::ThreeDimensional]
    );
    assert_eq!(
        decode_techniques("Libre;Stop-motion;banc-titre;3D;2D traditionnel;2D digitale"),
        vec![
            Technique::DigitalTwoDimensional,
            Technique::TraditionalTwoDimensional,
            Technique::ThreeDimensional,
            Technique::Rostrum,
            Technique::StopMotion,
            Technique::Free,
        ]
    );
}

#[test]
fn each_technique_has_its_words() {
    assert_eq!(decode_techniques("2D digitale"), vec![Technique::DigitalTwoDimensional]);
    assert_eq!(decode_techniques("2D traditionnel"), vec![Technique::TraditionalTwoDimensional]);
    assert_eq!(decode_techniques("3D"), vec![Technique::ThreeDimensional]);
    assert_eq!(decode_techniques("banc-titre"), vec![Technique::Rostrum]);
    assert_eq!(decode_techniques("Stop-motion"), vec![Technique::StopMotion]);
    assert_eq!(decode_techniques("Libre"), vec![Technique::Free]);
    assert_eq!(Technique::StopMotion.keyword(), "Stop-motion");
    assert_eq!(Technique::all().len(), 6);
}

#[test]
fn words_are_matched_to_the_letter() {
    assert_eq!(decode_techniques(""), Vec::<Technique>::new());
    assert_eq!(decode_techniques("2d digitale, 3d, libre, stop-motion"), Vec::<Technique>::new());
    assert_eq!(decode_techniques("2D"), Vec::<Technique>::new());
    assert_eq!(decode_techniques("Animation 2D  digitale"), Vec::<Technique>::new());
}

#[test]
fn words_are_found_inside_longer_text() {
    assert_eq!(
        decode_techniques("J'aime le banc-titre (Rostrum) et la 3Dimension"),
        vec![Technique::ThreeDimensional, Technique::Rostrum]
    );
    assert_eq!(decode_techniques("xxLibrexx"), vec![Technique::Free]);
    assert_eq!(decode_techniques("été 3D été"), vec![Technique::ThreeDimensional]);
}

#[test]
fn a_word_named_twice_is_decoded_once() {
    assert_eq!(decode_techniques("Libre, Libre, Libre"), vec![Technique::Free]);
}

#[test]
fn trim_strips_both_ends() {
    assert_eq!(trim_field("  Alpha  "), "Alpha");
    assert_eq!(trim_field("Alpha"), "Alpha");
    assert_eq!(trim_field("\t\nAlpha Beta \r\n"), "Alpha Beta");
    assert_eq!(trim_field(" a"), "a");
    assert_eq!(trim_field("a "), "a");
}

#[test]
fn trim_keeps_inner_white_space() {
    assert_eq!(trim_field("  a  b \t c  "), "a  b \t c");
}

#[test]
fn trim_of_nothing_but_white_space_is_empty() {
    assert_eq!(trim_field(""), "");
    assert_eq!(trim_field(" "), "");
    assert_eq!(trim_field(" \t\r\n "), "");
}

#[test]
fn trim_knows_white_space_beyond_ascii() {
    assert_eq!(trim_field("\u{a0}École\u{3000}"), "École");
    assert_eq!(trim_field("\u{2003}é à \u{2028}"), "é à");
    assert_eq!(trim_field("\u{200b}x\u{200b}"), "\u{200b}x\u{200b}");
}

#[test]
fn trim_agrees_with_the_standard_library() {
    for text in ["", " ", "x", " x", "x ", "  é  è  ", "\u{a0}\u{1680} k \u{85}", "日本語 ", " 🎬 cut 🎬 "] {
        assert_eq!(trim_field(text), text.trim());
    }
}

#[test]
fn location_labels_are_matched_to_the_letter() {
    assert_eq!(Location::from_label("Présentiel"), Some(Location::OnSite));
    assert_eq!(Location::from_label("En ligne"), Some(Location::Remote));
    assert_eq!(Location::from_label("présentiel"), None);
    assert_eq!(Location::from_label("Presentiel"), None);
    assert_eq!(Location::from_label("En ligne "), None);
    assert_eq!(Location::from_label(""), None);
    assert_eq!(Location::from_label("OnSite"), None);
}
