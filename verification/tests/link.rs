use list::{Adapter, Link, LinkInner, UnsafeList};

struct Task {
    id: u32,
    link: Link,
}

struct TaskAdapter;

// The first five functions stand for the ghost side of the trait: they are
// never called in compiled code.
impl Adapter<Task> for TaskAdapter {
    fn link_of(element: Task) -> Link {
        element.link
    }

    fn with_link(element: Task, link: Link) -> Task {
        Task { id: element.id, link }
    }

    fn lemma_link_of_with_link(_element: Task, _link: Link) {}

    fn lemma_with_own_link(_element: Task) {}

    fn lemma_with_link_twice(_element: Task, _first: Link, _second: Link) {}

    fn link(element: &Task) -> &Link {
        &element.link
    }

    fn link_mut(element: &mut Task) -> &mut Link {
        &mut element.link
    }
}

fn tasks(ids: &[u32]) -> Vec<Task> {
    let mut pool = Vec::new();
    for id in ids {
        pool.push(Task { id: *id, link: Link::new() });
    }
    pool
}

#[test]
fn new_link_is_unlinked() {
    let link = Link::new();
    assert!(link.is_unlinked());
    assert!(!link.is_linked());
}

#[test]
fn default_link_is_unlinked() {
    let link = Link::default();
    assert!(link.is_unlinked());
    assert!(!link.is_linked());
}

#[test]
fn new_inner_makes_an_unlinked_link() {
    let _inner = LinkInner::new();
    let task = Task { id: 3, link: Link::new() };
    assert!(TaskAdapter::link(&task).is_unlinked());
    assert_eq!(task.id, 3);
}

#[test]
fn is_linked_is_the_opposite_of_is_unlinked() {
    let mut pool = tasks(&[1, 2]);
    let mut list: UnsafeList<Task, TaskAdapter> = UnsafeList::new();
    list.push_back_unchecked(&mut pool, 0);
    list.push_back_unchecked(&mut pool, 1);
    for task in &pool {
        assert_eq!(task.link.is_linked(), !task.link.is_unlinked());
        assert!(task.link.is_linked());
    }
}

#[test]
fn only_member_of_a_list_reports_unlinked() {
    let mut pool = tasks(&[1]);
    let mut list: UnsafeList<Task, TaskAdapter> = UnsafeList::new();
    list.push_back_unchecked(&mut pool, 0);
    assert!(!list.is_empty());
    // It has no neighbour, so its link cannot tell that it is on a list.
    assert!(pool[0].link.is_unlinked());
    assert!(!pool[0].link.is_linked());
}

#[test]
fn members_with_a_neighbour_report_linked() {
    let mut pool = tasks(&[1, 2, 3]);
    let mut list: UnsafeList<Task, TaskAdapter> = UnsafeList::new();
    list.push_back_unchecked(&mut pool, 0);
    list.push_back_unchecked(&mut pool, 1);
    list.push_back_unchecked(&mut pool, 2);
    assert!(pool[0].link.is_linked());
    assert!(pool[1].link.is_linked());
    assert!(pool[2].link.is_linked());
}

#[test]
fn unlinked_element_keeps_its_references() {
    let mut pool = tasks(&[1, 2, 3]);
    let mut list: UnsafeList<Task, TaskAdapter> = UnsafeList::new();
    list.push_back_unchecked(&mut pool, 0);
    list.push_back_unchecked(&mut pool, 1);
    list.push_back_unchecked(&mut pool, 2);
    list.unlink_element(&mut pool, 1);
    // Off the list, but not reset.
    assert!(pool[1].link.is_linked());
}

#[test]
fn popped_element_is_reset() {
    let mut pool = tasks(&[1, 2, 3]);
    let mut list: UnsafeList<Task, TaskAdapter> = UnsafeList::new();
    list.push_back_unchecked(&mut pool, 0);
    list.push_back_unchecked(&mut pool, 1);
    list.push_back_unchecked(&mut pool, 2);
    assert!(pool[0].link.is_linked());
    assert_eq!(list.pop_head(&mut pool), Some(0));
    assert!(pool[0].link.is_unlinked());
    assert_eq!(pool[0].id, 1);
}
