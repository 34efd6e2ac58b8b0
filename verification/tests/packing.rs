use listening_stats::packing::{pack_artist_relationships, EncodingContractViolation};

#[test]
fn packs_two_lists_into_sixteen_bytes() {
    let packed = pack_artist_relationships(vec![vec![3, 1], vec![2]]).unwrap();
    assert_eq!(
        packed,
        vec![0x02, 0x01, 0, 0, 1, 0, 0, 0, 3, 0, 0, 0, 2, 0, 0, 0]
    );
    assert_eq!(packed.len(), 2 + 2 + 8 + 4);
}

#[test]
fn refuses_a_list_of_256_members() {
    let long: Vec<u32> = (0..256).collect();
    let outcome = pack_artist_relationships(vec![vec![7], long, vec![]]);
    assert_eq!(outcome, Err(EncodingContractViolation { list: 1, len: 256 }));
}

fn unpack(bytes: &[u8], lists: usize) -> Vec<Vec<u32>> {
    let mut at = lists + (4 - lists % 4) % 4;
    let mut out = Vec::new();
    for i in 0..lists {
        let mut list = Vec::new();
        for _ in 0..bytes[i] {
            list.push(u32::from_le_bytes([bytes[at], bytes[at + 1], bytes[at + 2], bytes[at + 3]]));
            at += 4;
        }
        out.push(list);
    }
    assert_eq!(at, bytes.len());
    out
}

#[test]
fn the_padding_fills_up_to_a_multiple_of_four() {
    for lists in 0..9usize {
        let input: Vec<Vec<u32>> = (0..lists).map(|i| vec![i as u32; i % 3]).collect();
        let members: usize = input.iter().map(|l| l.len()).sum();
        let packed = pack_artist_relationships(input).unwrap();
        let pad = (4 - lists % 4) % 4;
        assert_eq!(packed.len(), lists + pad + 4 * members);
        assert!(packed[lists..lists + pad].iter().all(|b| *b == 0));
    }
    assert_eq!(pack_artist_relationships(Vec::new()).unwrap(), Vec::<u8>::new());
    assert_eq!(pack_artist_relationships(vec![vec![], vec![], vec![], vec![]]).unwrap(), vec![0; 4]);
}

#[test]
fn members_are_written_in_ascending_order_least_byte_first() {
    let packed = pack_artist_relationships(vec![vec![0x0403_0201, 7, u32::MAX, 7, 0]]).unwrap();
    assert_eq!(
        packed,
        vec![
            5, 0, 0, 0, 0, 0, 0, 0, 7, 0, 0, 0, 7, 0, 0, 0, 1, 2, 3, 4, 0xff, 0xff, 0xff, 0xff
        ]
    );
}

#[test]
fn a_packed_form_reads_back_as_the_sorted_lists() {
    let input = vec![vec![9, 3, 300, 70_000], vec![], vec![5], vec![2, 2, 1], vec![u32::MAX, 0]];
    let mut sorted = input.clone();
    for list in sorted.iter_mut() {
        list.sort();
    }
    let packed = pack_artist_relationships(input).unwrap();
    assert_eq!(unpack(&packed, 5), sorted);
}

#[test]
fn a_list_of_255_members_fits() {
    let full: Vec<u32> = (0..255).rev().collect();
    let packed = pack_artist_relationships(vec![full]).unwrap();
    assert_eq!(packed.len(), 1 + 3 + 4 * 255);
    assert_eq!(packed[0], 255);
    assert_eq!(&packed[4..8], &[0, 0, 0, 0]);
    assert_eq!(&packed[packed.len() - 4..], &[254, 0, 0, 0]);
}
