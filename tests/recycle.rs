use ika::{Pool, Recyclable};

#[derive(Debug, Default, PartialEq)]
struct Buffer {
    bytes: Vec<u8>,
    tag: u32,
}

impl Recyclable for Buffer {}

#[derive(Debug, Default, PartialEq)]
struct Scratch {
    bytes: Vec<u8>,
    uses: u32,
}

impl Recyclable for Scratch {
    fn reset(&mut self) {
        self.bytes.clear();
    }
}

#[test]
fn spawn_new_resets_to_default() {
    let mut p: Pool<Buffer> = Pool::new(1);
    {
        let b = p.spawn().unwrap();
        b.bytes.push(7);
        b.tag = 3;
    }
    p.reclaim(|_| true);
    let b = p.spawn_new().unwrap();
    assert_eq!(*b, Buffer::default());
    assert!(p.spawn_new().is_none());
    assert_eq!(p.len(), 1);
}

#[test]
fn spawn_new_uses_the_types_own_reset() {
    let mut p: Pool<Scratch> = Pool::new(1);
    {
        let s = p.spawn().unwrap();
        s.bytes.push(1);
        s.uses = 4;
    }
    p.reclaim_unstable(|_| true);
    let s = p.spawn_new_unchecked();
    assert!(s.bytes.is_empty());
    assert_eq!(s.uses, 4);
}

#[test]
fn please_spawn_new_grows_and_resets() {
    let mut p: Pool<Buffer> = Pool::new(0);
    let b = p.please_spawn_new();
    assert_eq!(*b, Buffer::default());
    b.tag = 9;
    assert_eq!(p.capacity(), 1);
    assert_eq!(p.len(), 1);
    assert_eq!(p.get(0).map(|b| b.tag), Some(9));
}
