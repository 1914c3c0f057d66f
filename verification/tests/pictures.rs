use godot_tileset::picture::Picture;

fn picture(width: u32, height: u32, pixels: &[u32]) -> Picture {
    Picture::from_pixels(width, height, pixels.to_vec()).unwrap()
}

#[test]
fn new_picture_is_blank() {
    let blank = Picture::new(3, 2).unwrap();
    assert_eq!(blank.width(), 3);
    assert_eq!(blank.height(), 2);
    assert_eq!(blank.pixels(), &vec![0u32; 6]);
    assert_eq!(Picture::new(0, 5).unwrap().pixels(), &Vec::<u32>::new());
    assert_eq!(Picture::new(u32::MAX, u32::MAX), None);
}

#[test]
fn picture_has_a_pixel_for_each_place() {
    assert!(Picture::from_pixels(2, 2, vec![1, 2, 3, 4]).is_some());
    assert_eq!(Picture::from_pixels(2, 2, vec![1, 2, 3]), None);
    assert_eq!(Picture::from_pixels(2, 2, vec![1, 2, 3, 4, 5]), None);
    assert_eq!(Picture::from_pixels(0, 7, Vec::new()).unwrap().height(), 7);
    assert_eq!(Picture::from_pixels(u32::MAX, u32::MAX, Vec::new()), None);
}

#[test]
fn rows_of_a_picture() {
    let whole = picture(2, 3, &[1, 2, 3, 4, 5, 6]);
    assert_eq!(whole.rows(0, 3), Some(picture(2, 3, &[1, 2, 3, 4, 5, 6])));
    assert_eq!(whole.rows(1, 1), Some(picture(2, 1, &[3, 4])));
    assert_eq!(whole.rows(1, 2), Some(picture(2, 2, &[3, 4, 5, 6])));
    assert_eq!(whole.rows(3, 0), Some(picture(2, 0, &[])));
    assert_eq!(whole.rows(2, 2), None);
    assert_eq!(whole.rows(u32::MAX, 1), None);
    assert_eq!(whole.rows(1, u32::MAX), None);
}

#[test]
fn picture_is_pasted_into_its_place() {
    let mut sheet = picture(4, 3, &[0; 12]);
    let small = picture(2, 2, &[1, 2, 3, 4]);
    assert!(sheet.copy_from(&small, 1, 1));
    assert_eq!(sheet, picture(4, 3, &[0, 0, 0, 0, 0, 1, 2, 0, 0, 3, 4, 0]));
    assert!(sheet.copy_from(&small, 2, 0));
    assert_eq!(sheet, picture(4, 3, &[0, 0, 1, 2, 0, 1, 3, 4, 0, 3, 4, 0]));
    assert!(sheet.copy_from(&picture(0, 0, &[]), 4, 3));
    assert!(sheet.copy_from(&picture(4, 3, &[9; 12]), 0, 0));
    assert_eq!(sheet, picture(4, 3, &[9; 12]));
}

#[test]
fn picture_that_does_not_fit_is_not_pasted() {
    let mut sheet = picture(4, 3, &[7; 12]);
    let small = picture(2, 2, &[1, 2, 3, 4]);
    assert!(!sheet.copy_from(&small, 3, 0));
    assert!(!sheet.copy_from(&small, 0, 2));
    assert!(!sheet.copy_from(&small, u32::MAX, 0));
    assert!(!sheet.copy_from(&small, 0, u32::MAX));
    assert!(!sheet.copy_from(&picture(5, 1, &[0; 5]), 0, 0));
    assert_eq!(sheet, picture(4, 3, &[7; 12]));
}

#[test]
fn painting_through_a_mask() {
    let mut image = picture(2, 2, &[1, 2, 3, 4]);
    let source = picture(2, 2, &[10, 20, 30, 40]);
    let mask = picture(2, 2, &[5, 6, 5, 6]);
    image.paint_masked(&source, &mask, 5);
    assert_eq!(image, picture(2, 2, &[10, 2, 30, 4]));
    image.paint_masked(&source, &mask, 6);
    assert_eq!(image, picture(2, 2, &[10, 20, 30, 40]));
    image.paint_masked(&picture(1, 1, &[99]), &picture(2, 2, &[1; 4]), 1);
    assert_eq!(image, picture(2, 2, &[99, 20, 30, 40]));
    image.paint_masked(&picture(2, 2, &[0; 4]), &picture(1, 3, &[7, 7, 8]), 7);
    assert_eq!(image, picture(2, 2, &[0, 0, 30, 40]));
    image.paint_masked(&picture(2, 2, &[0; 4]), &picture(2, 2, &[1; 4]), 2);
    assert_eq!(image, picture(2, 2, &[0, 0, 30, 40]));
}
