use forge_core::buffer::CircularTokenBuffer;

#[test]
fn test_circular_token_buffer() {
    let capacity = 4;
    let mut buf = CircularTokenBuffer::new(capacity);
    assert_eq!(buf.len(), 0);
    assert!(buf.is_empty());

    buf.push(10);
    buf.push(20);
    assert_eq!(buf.len(), 2);
    let items: Vec<u32> = buf.iter().collect();
    assert_eq!(items, vec![10, 20]);

    buf.push(30);
    buf.push(40);
    assert_eq!(buf.len(), 4);
    let items: Vec<u32> = buf.iter().collect();
    assert_eq!(items, vec![10, 20, 30, 40]);

    // Push past capacity - FIFO overwriting oldest
    buf.push(50);
    assert_eq!(buf.len(), 4);
    let items: Vec<u32> = buf.iter().collect();
    assert_eq!(items, vec![20, 30, 40, 50]);

    buf.push(60);
    let items: Vec<u32> = buf.iter().collect();
    assert_eq!(items, vec![30, 40, 50, 60]);

    buf.clear();
    assert_eq!(buf.len(), 0);
    assert!(buf.is_empty());
}

#[test]
fn tokens_land_in_the_slots_in_turn() {
    let mut buf = CircularTokenBuffer::new(3);
    assert_eq!(buf.raw_slice(), &[] as &[u32]);
    for token in [7, 8, 9, 10] {
        buf.push(token);
    }
    // The oldest token has given up its slot.
    assert_eq!(buf.raw_slice(), &[10, 8, 9]);
    assert_eq!(buf.iter().collect::<Vec<u32>>(), vec![8, 9, 10]);
    buf.push(11);
    assert_eq!(buf.raw_slice(), &[10, 11, 9]);
    // A cleared buffer begins at its first slot again.
    buf.clear();
    assert_eq!(buf.raw_slice(), &[] as &[u32]);
    buf.push(5);
    assert_eq!(buf.raw_slice(), &[5]);
    assert_eq!(buf.iter().collect::<Vec<u32>>(), vec![5]);
}
