use gis_view::raster::BandTriplet;
use gis_view::session::{
    band_menu, choose_layer, classify_dataset, contains_run, default_band_entry, ends_with,
    gray_bands, is_subdataset_path, is_zip_path, parse_protocol, viewer_protocols, BandMenu,
    DatasetKind, DisplayProtocol, LayerChoice,
};
use gis_view::terminal::{estimate_size, parse_number, parse_window_size, terminal_pixel_size};

#[test]
fn datasets_are_classified_by_their_counts() {
    assert_eq!(classify_dataset(3, 0, 0), DatasetKind::Raster);
    assert_eq!(classify_dataset(1, 4, 2), DatasetKind::Raster);
    assert_eq!(classify_dataset(0, 4, 2), DatasetKind::Container);
    assert_eq!(classify_dataset(0, 0, 2), DatasetKind::Vector);
    assert_eq!(classify_dataset(0, 0, 0), DatasetKind::Empty);
}

#[test]
fn layer_is_chosen() {
    assert_eq!(choose_layer(Some(2), 3, false), LayerChoice::Render(2));
    assert_eq!(choose_layer(Some(3), 3, true), LayerChoice::OutOfRange(3));
    assert_eq!(choose_layer(None, 1, true), LayerChoice::Render(0));
    assert_eq!(choose_layer(None, 5, true), LayerChoice::Ask);
    assert_eq!(choose_layer(None, 5, false), LayerChoice::List);
}

#[test]
fn band_menu_entries() {
    let rgb = |r, g, b| BandMenu::Preset(BandTriplet { red: r, green: g, blue: b });
    assert_eq!(band_menu(0), rgb(3, 2, 1));
    assert_eq!(band_menu(1), rgb(4, 3, 2));
    assert_eq!(band_menu(2), rgb(4, 2, 1));
    assert_eq!(band_menu(3), rgb(4, 3, 1));
    assert_eq!(band_menu(4), BandMenu::Grayscale);
    assert_eq!(band_menu(5), BandMenu::Custom);
    assert_eq!(band_menu(6), rgb(1, 2, 3));
    assert_eq!(gray_bands(5), BandTriplet { red: 5, green: 5, blue: 5 });
    assert_eq!(default_band_entry(0, 3), 0);
    assert_eq!(default_band_entry(2, 3), 2);
    assert_eq!(default_band_entry(2, 2), 1);
    assert_eq!(default_band_entry(1, 0), 0);
}

#[test]
fn protocols_by_name() {
    assert_eq!(parse_protocol(None), Some(DisplayProtocol::Auto));
    assert_eq!(parse_protocol(Some(b"kitty")), Some(DisplayProtocol::Kitty));
    assert_eq!(parse_protocol(Some(b"iterm")), Some(DisplayProtocol::Iterm));
    assert_eq!(parse_protocol(Some(b"blocks")), Some(DisplayProtocol::Blocks));
    assert_eq!(parse_protocol(Some(b"sixel")), None);
    assert_eq!(parse_protocol(Some(b"Kitty")), None);
    assert_eq!(parse_protocol(Some(b"kitt")), None);
    assert_eq!(parse_protocol(Some(b"")), None);
    assert_eq!(viewer_protocols(DisplayProtocol::Auto), (true, true));
    assert_eq!(viewer_protocols(DisplayProtocol::Iterm), (false, true));
    assert_eq!(viewer_protocols(DisplayProtocol::Blocks), (false, false));
    assert_eq!(viewer_protocols(DisplayProtocol::Kitty), (true, false));
}

#[test]
fn window_size_reports() {
    assert_eq!(parse_window_size(b"1920x1080"), Some((1920, 1080)));
    assert_eq!(parse_window_size(b"  800x600\n"), Some((800, 600)));
    assert_eq!(parse_window_size(b"\t+8x007 \r\n"), Some((8, 7)));
    assert_eq!(parse_window_size(b"0x0"), Some((0, 0)));
    assert_eq!(parse_window_size(b"800"), None);
    assert_eq!(parse_window_size(b"800x"), None);
    assert_eq!(parse_window_size(b"x600"), None);
    assert_eq!(parse_window_size(b"800x600x3"), None);
    assert_eq!(parse_window_size(b"800 x 600"), None);
    assert_eq!(parse_window_size(b"800X600"), None);
    assert_eq!(parse_window_size(b"-800x600"), None);
    assert_eq!(parse_window_size(b""), None);
    assert_eq!(parse_window_size(b"99999999999999999999999x1"), None);
}

#[test]
fn numbers_are_parsed_like_unsigned_integers() {
    assert_eq!(parse_number(b"0"), Some(0));
    assert_eq!(parse_number(b"+42"), Some(42));
    assert_eq!(parse_number(b"0042"), Some(42));
    assert_eq!(parse_number(b"+"), None);
    assert_eq!(parse_number(b""), None);
    assert_eq!(parse_number(b"4 2"), None);
    assert_eq!(parse_number(b"++1"), None);
    assert_eq!(parse_number(b"1e3"), None);
    let max = usize::MAX.to_string();
    assert_eq!(parse_number(max.as_bytes()), Some(usize::MAX));
    let over = format!("{}0", max);
    assert_eq!(parse_number(over.as_bytes()), None);
    let mut next = max.into_bytes();
    let last = next.len() - 1;
    next[last] += 1;
    assert_eq!(parse_number(&next), None);
}

#[test]
fn size_is_estimated_from_columns() {
    assert_eq!(estimate_size(80), Some((720, 540)));
    assert_eq!(estimate_size(0), Some((0, 0)));
    assert_eq!(estimate_size(211), Some((1899, 1424)));
    assert_eq!(estimate_size(usize::MAX / 27), Some(((usize::MAX / 27) * 9, (usize::MAX / 27) * 27 / 4)));
    assert_eq!(estimate_size(usize::MAX / 27 + 1), None);
}

#[test]
fn terminal_size_falls_back_step_by_step() {
    assert_eq!(terminal_pixel_size(Some(b"1000x700\n"), Some(b"80\n")), (1000, 700));
    assert_eq!(terminal_pixel_size(Some(b"garbage"), Some(b"80\n")), (720, 540));
    assert_eq!(terminal_pixel_size(None, Some(b" 100 ")), (900, 675));
    assert_eq!(terminal_pixel_size(None, Some(b"wide")), (1920, 1080));
    assert_eq!(terminal_pixel_size(Some(b""), None), (1920, 1080));
    assert_eq!(terminal_pixel_size(None, None), (1920, 1080));
}

#[test]
fn paths_are_told_apart() {
    assert!(is_subdataset_path(b"SENTINEL2_L2A:/vsizip/scene.zip/MTD.xml:10m:EPSG_32633"));
    assert!(is_subdataset_path(b"NETCDF:EPSG"));
    assert!(is_subdataset_path(b":/vsi"));
    assert!(!is_subdataset_path(b"/data/scene.tif"));
    assert!(!is_subdataset_path(b"/vsizip/scene.zip"));
    assert!(!is_subdataset_path(b":/vs"));
    assert!(!is_subdataset_path(b""));
    assert!(is_zip_path(b"scene.zip"));
    assert!(is_zip_path(b"SCENE.ZIP"));
    assert!(is_zip_path(b".zip"));
    assert!(!is_zip_path(b"scene.Zip"));
    assert!(!is_zip_path(b"scene.zip.tif"));
    assert!(!is_zip_path(b"zip"));
}

#[test]
fn runs_and_endings_are_found() {
    assert!(contains_run(b"abcabd", b"abd"));
    assert!(contains_run(b"abcabd", b""));
    assert!(contains_run(b"", b""));
    assert!(contains_run(b"aab", b"ab"));
    assert!(!contains_run(b"abcabd", b"abe"));
    assert!(!contains_run(b"ab", b"abc"));
    assert!(ends_with(b"abc", b"bc"));
    assert!(ends_with(b"abc", b""));
    assert!(ends_with(b"abc", b"abc"));
    assert!(!ends_with(b"abc", b"ab"));
    assert!(!ends_with(b"bc", b"abc"));
}
