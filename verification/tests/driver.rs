use cloud_raster::driver::{pick_driver, DriverInfo};
use cloud_raster::error::Error;
use cloud_raster::text::{same, split, to_chars};

fn driver(extensions: &str) -> DriverInfo {
    DriverInfo { raster: true, create: true, extensions: Some(extensions.to_string()) }
}

fn chars(text: &str) -> Vec<char> {
    text.chars().collect()
}

#[test]
fn last_driver_that_writes_the_extension_is_picked() {
    let drivers = vec![driver("tif tiff"), driver("png"), driver("tif"), driver("asc")];
    assert_eq!(pick_driver(&drivers, "tif"), Ok(2));
    assert_eq!(pick_driver(&drivers, "tiff"), Ok(0));
    assert_eq!(pick_driver(&drivers, "png"), Ok(1));
    assert_eq!(pick_driver(&drivers, "asc"), Ok(3));
}

#[test]
fn driver_must_handle_rasters_and_create_files() {
    let drivers = vec![
        driver("tif"),
        DriverInfo { raster: false, create: true, extensions: Some("tif".to_string()) },
        DriverInfo { raster: true, create: false, extensions: Some("tif".to_string()) },
        DriverInfo { raster: true, create: true, extensions: None },
    ];
    assert_eq!(pick_driver(&drivers, "tif"), Ok(0));
}

#[test]
fn extension_that_no_driver_writes_is_an_error() {
    let drivers = vec![driver("tif tiff"), driver("png")];
    assert_eq!(
        pick_driver(&drivers, "xyz"),
        Err(Error::NoDriverForExtension("xyz".to_string()))
    );
    assert_eq!(pick_driver(&drivers, "ti"), Err(Error::NoDriverForExtension("ti".to_string())));
    assert_eq!(
        pick_driver(&drivers, "tif tiff"),
        Err(Error::NoDriverForExtension("tif tiff".to_string()))
    );
    assert_eq!(pick_driver(&vec![], "tif"), Err(Error::NoDriverForExtension("tif".to_string())));
}

#[test]
fn text_is_cut_at_every_separator() {
    let cut = |text: &str| -> Vec<String> {
        split(&chars(text), ' ').into_iter().map(|p| p.into_iter().collect()).collect()
    };
    assert_eq!(cut("tif tiff"), vec!["tif", "tiff"]);
    assert_eq!(cut("tif"), vec!["tif"]);
    assert_eq!(cut(""), vec![""]);
    assert_eq!(cut(" a  b "), vec!["", "a", "", "b", ""]);
}

#[test]
fn characters_of_a_text() {
    assert_eq!(to_chars("a,ß,水"), vec!['a', ',', 'ß', ',', '水']);
    assert_eq!(to_chars(""), Vec::<char>::new());
}

#[test]
fn same_texts_are_told_from_others() {
    assert!(same(&chars("tif"), &chars("tif")));
    assert!(same(&chars(""), &chars("")));
    assert!(!same(&chars("tif"), &chars("tiff")));
    assert!(!same(&chars("tif"), &chars("tig")));
}
