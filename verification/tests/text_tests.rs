use grleconvert::guide::{
    camel_to_readable, find_config_filename, find_filename_by_id, parse_fill_types,
    parse_foliage_states, parse_weed_blocking_value, resolve_path, titlecase, titlecase_name,
};
use grleconvert::pixel::{
    gray_from_values, grayscale_from_channels, rgb_from_values, value_to_rgb, values_from_gray,
    values_from_rgb,
};
use grleconvert::resolver::{extract_attr, find_layer_params, LayerType};

#[test]
fn extract_attr_reads_numbers() {
    assert_eq!(extract_attr("<InfoLayer numChannels=\"4\"/>", "numChannels"), Some(4));
    assert_eq!(extract_attr("<InfoLayer numChannels=\"+12\"/>", "numChannels"), Some(12));
    assert_eq!(extract_attr("<InfoLayer numChannels=\"abc\"/>", "numChannels"), None);
    assert_eq!(extract_attr("<InfoLayer/>", "numChannels"), None);
    assert_eq!(extract_attr("<InfoLayer numChannels=\"4", "numChannels"), None);
}

#[test]
fn resolver_finds_info_layer() {
    let content = "\
        <Files>\n\
          <File fileId=\"12\" filename=\"maps/infoLayer_farmland.png\"/>\n\
        </Files>\n\
        <InfoLayer name=\"farmland\" fileId=\"12\" numChannels=\"8\"/>\n";
    let p = find_layer_params(content, "infoLayer_farmland.png").unwrap();
    assert_eq!(p.layer_type, LayerType::InfoLayer);
    assert_eq!(p.num_channels, 8);
    assert_eq!(p.compression_channels, None);
}

#[test]
fn resolver_finds_detail_layer_with_split() {
    let content = "\
        <File fileId=\"7\" filename=\"densityMap_ground.png\"/>\n\
        <DetailLayer densityMapId=\"7\" numDensityMapChannels=\"10\" compressionChannels=\"5\"/>\n";
    let p = find_layer_params(content, "densityMap_ground.png").unwrap();
    assert_eq!(p.layer_type, LayerType::GdmLayer);
    assert_eq!(p.num_channels, 10);
    assert_eq!(p.compression_channels, Some(5));
}

#[test]
fn resolver_finds_foliage_layer() {
    let content = "\
        <File fileId=\"3\" filename=\"densityMap_fruits.png\"/>\n\
        <FoliageMultiLayer densityMapId=\"3\" numChannels=\"9\"/>\n";
    let p = find_layer_params(content, "densityMap_fruits.png").unwrap();
    assert_eq!(p.layer_type, LayerType::GdmLayer);
    assert_eq!(p.num_channels, 9);
    assert_eq!(p.compression_channels, None);
}

#[test]
fn resolver_misses_unknown_file() {
    let content = "<File fileId=\"3\" filename=\"densityMap_fruits.png\"/>\n";
    assert!(find_layer_params(content, "other.png").is_none());
}

#[test]
fn readable_names() {
    assert_eq!(titlecase("someLongName"), "Some Long Name");
    assert_eq!(titlecase("ABC"), "ABC");
    assert_eq!(camel_to_readable("greenSmall"), "Green Small");
    assert_eq!(titlecase_name("UPPERCASE_NAME"), "Uppercase Name");
    assert_eq!(titlecase_name("stubbleTillage"), "Stubble Tillage");
}

#[test]
fn weed_blocking_value_is_read() {
    let content = "<weed>\n  <blockingState value=\"7\"/>\n</weed>\n";
    assert_eq!(parse_weed_blocking_value(content), Some(7));
    assert_eq!(parse_weed_blocking_value("<weed/>"), None);
}

#[test]
fn config_filename_is_found() {
    let maps = "<map>\n  <farmlands filename=\"maps/farmlands.xml\"/>\n</map>\n";
    assert_eq!(find_config_filename(maps, "farmlands"), Some("maps/farmlands.xml".to_string()));
    assert_eq!(find_config_filename(maps, "weed"), None);
}

#[test]
fn filename_by_id_swaps_extensions() {
    let content = "\
        <File fileId=\"4\" filename=\"$data/maps/infoLayer_tipCollision.png\"/>\n\
        <File fileId=\"5\" filename=\"maps/densityMap_weed.png\"/>\n\
        <File fileId=\"6\" filename=\"textures/grass.dds\"/>\n";
    assert_eq!(find_filename_by_id(content, "4"), Some("infoLayer_tipCollision.grle".to_string()));
    assert_eq!(find_filename_by_id(content, "5"), Some("densityMap_weed.gdm".to_string()));
    assert_eq!(find_filename_by_id(content, "6"), Some("grass.dds".to_string()));
    assert_eq!(find_filename_by_id(content, "9"), None);
}

#[test]
fn fill_types_are_numbered_from_one() {
    let content = "\
        <densityMapHeightTypes>\n\
          <densityMapHeightType fillTypeName=\"wheat\"/>\n\
          <densityMapHeightType fillTypeName=\"DRYGRASS_WINDROW\"/>\n\
        </densityMapHeightTypes>\n";
    let types = parse_fill_types(content);
    assert_eq!(types.len(), 3);
    assert_eq!(types[0], (0, "Empty".to_string()));
    assert_eq!(types[1], (1, "Wheat".to_string()));
    assert_eq!(types[2], (2, "Drygrass Windrow".to_string()));
    assert!(parse_fill_types("<densityMapHeightTypes/>").is_empty());
}

#[test]
fn foliage_states_are_described() {
    let content = "\
        <foliageType>\n\
          <foliageState name=\"invisible\" isGrowing=\"true\"/>\n\
          <foliageState name=\"greenSmall\" isGrowing=\"true\"/>\n\
          <foliageState name=\"ripe\" isHarvestReady=\"true\"/>\n\
          <foliageState name=\"dead\" isWithered=\"true\"/>\n\
          <foliageState name=\"stubble\" isCut=\"true\"/>\n\
        </foliageType>\n";
    let states = parse_foliage_states(content);
    assert_eq!(states.len(), 6);
    assert_eq!(states[0], (0, "None/Empty".to_string()));
    assert_eq!(states[1], (1, "Invisible".to_string()));
    assert_eq!(states[2], (2, "Green Small (growing)".to_string()));
    assert_eq!(states[3], (3, "Ripe (harvest ready)".to_string()));
    assert_eq!(states[4], (4, "Dead (withered)".to_string()));
    assert_eq!(states[5], (5, "Stubble (cut)".to_string()));
}

#[test]
fn paths_resolve_against_their_roots() {
    let root = Some("/mods/greatmap".to_string());
    assert_eq!(
        resolve_path("maps/farmlands.xml", &root, Some("/game/data")),
        Some("/mods/greatmap/maps/farmlands.xml".to_string())
    );
    assert_eq!(
        resolve_path("$data/maps/weed.xml", &root, Some("/game/data")),
        Some("/game/data/maps/weed.xml".to_string())
    );
    assert_eq!(resolve_path("$data/maps/weed.xml", &root, None), None);
    assert_eq!(resolve_path("maps/weed.xml", &None, Some("/game/data")), None);
}

#[test]
fn packed_values_map_to_colors() {
    assert_eq!(value_to_rgb(0x0000_0005, 4), (5, 5, 5));
    assert_eq!(value_to_rgb(0x0004_0305, 16), (5, 3, 4));
    assert_eq!(value_to_rgb(0x0101, 8), (1, 1, 1));
}

#[test]
fn pixel_buffers_convert_both_ways() {
    let rgb = [10u8, 20, 30, 40, 50, 60];
    assert_eq!(grayscale_from_channels(&rgb, 3), vec![10, 40]);
    let vals = values_from_rgb(&rgb, 3);
    assert_eq!(vals, vec![10 | (20 << 8) | (30 << 16), 40 | (50 << 8) | (60 << 16)]);
    assert_eq!(rgb_from_values(&vals), rgb.to_vec());
    assert_eq!(gray_from_values(&vals), vec![10, 40]);

    let rgba = [1u8, 2, 3, 255, 9, 8, 7, 255];
    assert_eq!(grayscale_from_channels(&rgba, 4), vec![1, 9]);
    assert_eq!(values_from_rgb(&rgba, 4), vec![1 | (2 << 8) | (3 << 16), 9 | (8 << 8) | (7 << 16)]);

    let gray = [5u8, 6, 7];
    assert_eq!(values_from_gray(&gray), vec![5, 6, 7]);
}
