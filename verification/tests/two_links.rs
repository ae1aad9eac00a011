use list::{Adapter, Link, UnsafeList};

// An element with two links can be on two lists at once, one through each.
struct Thread {
    id: u32,
    run_link: Link,
    all_link: Link,
}

struct RunAdapter;

struct AllAdapter;

impl Adapter<Thread> for RunAdapter {
    fn link_of(element: Thread) -> Link {
        element.run_link
    }

    fn with_link(element: Thread, link: Link) -> Thread {
        Thread { id: element.id, run_link: link, all_link: element.all_link }
    }

    fn lemma_link_of_with_link(_element: Thread, _link: Link) {}

    fn lemma_with_own_link(_element: Thread) {}

    fn lemma_with_link_twice(_element: Thread, _first: Link, _second: Link) {}

    fn link(element: &Thread) -> &Link {
        &element.run_link
    }

    fn link_mut(element: &mut Thread) -> &mut Link {
        &mut element.run_link
    }
}

impl Adapter<Thread> for AllAdapter {
    fn link_of(element: Thread) -> Link {
        element.all_link
    }

    fn with_link(element: Thread, link: Link) -> Thread {
        Thread { id: element.id, run_link: element.run_link, all_link: link }
    }

    fn lemma_link_of_with_link(_element: Thread, _link: Link) {}

    fn lemma_with_own_link(_element: Thread) {}

    fn lemma_with_link_twice(_element: Thread, _first: Link, _second: Link) {}

    fn link(element: &Thread) -> &Link {
        &element.all_link
    }

    fn link_mut(element: &mut Thread) -> &mut Link {
        &mut element.all_link
    }
}

fn threads(count: u32) -> Vec<Thread> {
    let mut pool = Vec::new();
    for id in 0..count {
        pool.push(Thread { id, run_link: Link::new(), all_link: Link::new() });
    }
    pool
}

fn run_ids(list: &UnsafeList<Thread, RunAdapter>, pool: &[Thread]) -> Vec<u32> {
    let mut seen = Vec::new();
    let result: Result<(), ()> = list.for_each(pool, |thread| {
        seen.push(thread.id);
        Ok(())
    });
    assert_eq!(result, Ok(()));
    seen
}

fn all_ids(list: &UnsafeList<Thread, AllAdapter>, pool: &[Thread]) -> Vec<u32> {
    let mut seen = Vec::new();
    let result: Result<(), ()> = list.for_each(pool, |thread| {
        seen.push(thread.id);
        Ok(())
    });
    assert_eq!(result, Ok(()));
    seen
}

#[test]
fn one_element_on_two_lists_through_two_links() {
    let mut pool = threads(4);
    let mut all: UnsafeList<Thread, AllAdapter> = UnsafeList::new();
    let mut run: UnsafeList<Thread, RunAdapter> = UnsafeList::new();
    for element in 0..4 {
        all.push_back_unchecked(&mut pool, element);
    }
    run.push_front_unchecked(&mut pool, 1);
    run.push_front_unchecked(&mut pool, 3);
    assert_eq!(all_ids(&all, &pool), vec![0, 1, 2, 3]);
    assert_eq!(run_ids(&run, &pool), vec![3, 1]);

    // Taking an element off one list leaves it on the other.
    assert_eq!(run.pop_head(&mut pool), Some(3));
    assert_eq!(all_ids(&all, &pool), vec![0, 1, 2, 3]);
    assert_eq!(run_ids(&run, &pool), vec![1]);
    assert!(pool[3].run_link.is_unlinked());
    assert!(pool[3].all_link.is_linked());

    all.filter(&mut pool, |thread| thread.id != 1);
    assert_eq!(all_ids(&all, &pool), vec![0, 2, 3]);
    assert_eq!(run_ids(&run, &pool), vec![1]);
}
