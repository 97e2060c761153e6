use sentinel::ident::{bytes_eq, id_rank, Rank};

#[test]
fn identifiers_are_ranked_byte_by_byte() {
    let low = [1u8; 32];
    let mut high = [1u8; 32];
    high[31] = 2;
    let mut higher = [1u8; 32];
    higher[0] = 2;
    higher[31] = 0;
    assert_eq!(id_rank(&low, &low), Rank::Same);
    assert_eq!(id_rank(&low, &high), Rank::Before);
    assert_eq!(id_rank(&high, &low), Rank::After);
    assert_eq!(id_rank(&high, &higher), Rank::Before);
    assert_eq!(id_rank(&higher, &low), Rank::After);
    assert_eq!(id_rank(&[0u8; 32], &[255u8; 32]), Rank::Before);
}

#[test]
fn identifiers_are_equal_when_all_bytes_are() {
    let a = [7u8; 20];
    let mut b = [7u8; 20];
    assert!(bytes_eq(&a, &b));
    b[19] = 8;
    assert!(!bytes_eq(&a, &b));
    b[19] = 7;
    b[0] = 6;
    assert!(!bytes_eq(&a, &b));
    assert!(bytes_eq(&[0u8; 32], &[0u8; 32]));
}
