use taudio::dupe::Dupe;
use taudio::id::{IdContainer, IdSequence, IncrementalId, IndexById, IndexByIdMut, NumericId};
use taudio::pipeline::NodeId;

fn id(n: usize) -> NodeId {
    NodeId::from_index(n - 1)
}

#[test]
fn vec_wrapper() {
    let a = IdContainer::new(vec![1, 2, 3, 4]);

    let mut seq: IdSequence<NodeId> = IdSequence::default();
    let ids: [NodeId; 4] = std::array::from_fn(|_| seq.next_id());

    assert_eq!(a[ids[0]], a[0]);
    assert_eq!(a[ids[1]], a[1]);
    assert_eq!(a[ids[2]], a[2]);
    assert_eq!(a[ids[3]], a[3]);
}

#[test]
fn iter_by_id() {
    let a = IdContainer::new(vec![1, 2, 3]);
    let iter_result: Vec<(NodeId, i32)> =
        a.iter_with_id::<NodeId>().into_iter().map(|(id, &v)| (id, v)).collect();

    assert_eq!(iter_result, [(id(1), 1), (id(2), 2), (id(3), 3)]);
}

#[test]
fn id_sequence_counts_from_first() {
    let mut seq: IdSequence<NodeId> = IdSequence::new();
    let a = seq.next_id();
    let b = seq.next_id();
    let c = seq.next_id();
    assert_eq!(a, NodeId::first());
    assert_eq!(a.as_index(), 0);
    assert_eq!(b.as_index(), 1);
    assert_eq!(c.as_index(), 2);
    assert_eq!(a.next(), b);
    assert_eq!(a.get(), 1);
    assert_eq!(c.get(), 3);
}

#[test]
fn next_saturates_at_last_id() {
    let last = NodeId::from_index(u32::MAX as usize - 1);
    assert_eq!(last.next(), last);
    assert_eq!(last.get(), u32::MAX);
}

#[test]
fn push_id_hands_out_positions() {
    let mut strings: IdContainer<&str> = IdContainer::new(vec![]);
    assert!(strings.is_empty());
    let next: NodeId = strings.next_id();
    let xyz: NodeId = strings.push_id("xyz");
    let foo: NodeId = strings.push_id("foo");
    assert_eq!(next, xyz);
    assert_eq!(xyz.as_index(), 0);
    assert_eq!(foo.as_index(), 1);
    assert_eq!(strings[xyz], "xyz");
    assert_eq!(strings[foo], "foo");
    assert_eq!(strings.len(), 2);
    assert_eq!(*strings.get_by_id(foo), "foo");
    assert_eq!(strings.get(2), None);
}

#[test]
fn set_by_id_replaces_one_item() {
    let mut a = IdContainer::new(vec![10, 20, 30]);
    a.set_by_id(id(2), 25);
    assert_eq!(a.into_inner(), vec![10, 25, 30]);
}

#[test]
fn index_by_id_on_vec() {
    let mut v = vec![5, 6, 7];
    assert_eq!(*v.index_by_id(id(3)), 7);
    *v.index_by_id_mut(id(1)) = 50;
    assert_eq!(v, vec![50, 6, 7]);
}

#[derive(Debug, PartialEq)]
struct Copyable(u8);

impl Dupe for Copyable {
    fn dupe(&self) -> Option<Self> {
        Some(Copyable(self.0))
    }
}

#[derive(Debug, PartialEq)]
struct Unique(u8);

impl Dupe for Unique {}

#[test]
fn dupe_vec_copies_every_item() {
    let v = vec![Copyable(1), Copyable(2)];
    assert_eq!(v.dupe(), Some(vec![Copyable(1), Copyable(2)]));
    let empty: Vec<Unique> = vec![];
    assert_eq!(empty.dupe(), Some(vec![]));
}

#[test]
fn dupe_vec_fails_on_one_refusal() {
    let v = vec![Unique(1)];
    assert_eq!(v.dupe(), None);
    assert_eq!(Unique(3).dupe(), None);
}

#[test]
fn dupe_option_copies_none_and_fails_with_its_value() {
    let none: Option<Copyable> = None;
    assert_eq!(none.dupe(), Some(None));
    assert_eq!(Some(Copyable(4)).dupe(), Some(Some(Copyable(4))));
    assert_eq!(Some(Unique(4)).dupe(), None);
}

#[test]
fn dupe_id_container() {
    let c = IdContainer::new(vec![Copyable(7)]);
    let d = c.dupe().unwrap();
    assert_eq!(d.into_inner(), vec![Copyable(7)]);
    let u = IdContainer::new(vec![Unique(7)]);
    assert!(u.dupe().is_none());
}

#[test]
fn node_id_prints_its_number_in_hex() {
    assert_eq!(NodeId::from_index(0).to_string(), "00000001");
    assert_eq!(NodeId::from_index(0xAB - 1).to_string(), "000000AB");
    assert_eq!(NodeId::from_index(0x1234_5678 - 1).to_string(), "12345678");
    assert_eq!(NodeId::from_index(u32::MAX as usize - 1).to_string(), "FFFFFFFF");
}

#[test]
fn dupe_array_copies_all_or_nothing() {
    let a = [Copyable(1), Copyable(2), Copyable(3)];
    assert_eq!(a.dupe(), Some([Copyable(1), Copyable(2), Copyable(3)]));
    let b = [Unique(1), Unique(2)];
    assert_eq!(b.dupe(), None);
    let empty: [Unique; 0] = [];
    assert_eq!(empty.dupe(), Some([]));
}
