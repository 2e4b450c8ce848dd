use wfc::containerutils::extract_two_elements;

#[test]
fn test_extract_two_elements_lessthan() {
    let mut arr = [0, 1, 2, 3, 4];
    if let Some((e0, e1)) = extract_two_elements(&mut arr, 1, 3) {
        *e0 = 6;
        *e1 = 8;
    }

    assert_eq!(arr, [0, 6, 2, 8, 4]);
}

#[test]
fn test_extract_two_elements_greaterthan() {
    let mut arr = [0, 1, 2, 3, 4];
    if let Some((e0, e1)) = extract_two_elements(&mut arr, 3, 1) {
        *e0 = 6;
        *e1 = 8;
    }

    assert_eq!(arr, [0, 8, 2, 6, 4]);
}

#[test]
fn test_extract_two_elements_equal() {
    let mut arr = [0, 1, 2, 3, 4];
    if let Some((e0, e1)) = extract_two_elements(&mut arr, 1, 1) {
        *e0 = 6;
        *e1 = 8;
    }

    assert_eq!(arr, [0, 1, 2, 3, 4]);
}

#[test]
fn test_extract_two_elements_atend() {
    let mut arr = [0, 1, 2, 3, 4];
    if let Some((e0, e1)) = extract_two_elements(&mut arr, 1, 5) {
        *e0 = 6;
        *e1 = 8;
    }

    assert_eq!(arr, [0, 1, 2, 3, 4]);
}

#[test]
fn extract_two_elements_reads_what_is_there() {
    let mut arr = [10, 11, 12, 13];
    for i in 0..5 {
        for j in 0..5 {
            let got = extract_two_elements(&mut arr, i, j).map(|(a, b)| (*a, *b));
            if i < 4 && j < 4 && i != j {
                assert_eq!(got, Some((10 + i, 10 + j)));
            } else {
                assert_eq!(got, None);
            }
        }
    }
    let mut none: [u8; 0] = [];
    assert!(extract_two_elements(&mut none, 0, 1).is_none());
}

#[test]
fn extract_two_elements_first_and_last() {
    let mut arr = [0, 1, 2];
    if let Some((e0, e1)) = extract_two_elements(&mut arr, 2, 0) {
        *e0 += 40;
        *e1 += 70;
    }
    assert_eq!(arr, [70, 1, 42]);
}
