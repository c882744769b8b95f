use std::num::Wrapping;
use treiber_stack::Stack;

/// A small linear congruential generator, so that the values are spread out
/// but the same on every run.
fn next_value(seed: &mut u64) -> usize {
    *seed = seed.wrapping_mul(6364136223846793005).wrapping_add(1442695040888963407);
    (*seed >> 11) as usize
}

#[test]
fn push_then_pop() {
    const NUM_THREADS: usize = 10;
    const NUM_PUSH_PER_THREAD: usize = 10;

    let mut stack = Stack::<usize>::new();
    let mut seed: u64 = 42;

    let mut thread_sum = Wrapping(0usize);
    for _ in 0..NUM_THREADS {
        let mut sum = Wrapping(0usize);
        for _ in 0..NUM_PUSH_PER_THREAD {
            let random = next_value(&mut seed);
            sum += random;
            stack.push(random);
        }
        thread_sum += sum;
    }

    // Every popper enters, then they finish in turns until the stack is empty.
    for _ in 0..NUM_THREADS {
        stack.begin_pop();
    }
    let mut sums = vec![Wrapping(0usize); NUM_THREADS];
    let mut done = vec![false; NUM_THREADS];
    let mut left = NUM_THREADS;
    let mut turn = 0;
    let mut count = 0;
    while left > 0 {
        if !done[turn] {
            match stack.finish_pop(0) {
                Some(number) => {
                    sums[turn] += number;
                    count += 1;
                    stack.begin_pop();
                }
                None => {
                    done[turn] = true;
                    left -= 1;
                }
            }
        }
        turn = (turn + 1) % NUM_THREADS;
    }

    let pop_sum = sums.into_iter().fold(Wrapping(0usize), |a, b| a + b);
    assert_eq!(pop_sum, thread_sum);
    assert_eq!(count, NUM_THREADS * NUM_PUSH_PER_THREAD);
    assert_eq!(stack.pops_in_flight(), 0);
    assert_eq!(stack.pop(), None);
}

#[test]
fn pops_in_reverse_order_of_pushes() {
    let mut stack = Stack::new();
    stack.push('a');
    stack.push('b');
    stack.push('c');
    assert_eq!(stack.pop(), Some('c'));
    assert_eq!(stack.pop(), Some('b'));
    assert_eq!(stack.pop(), Some('a'));
    assert_eq!(stack.pop(), None);
}

#[test]
fn pop_on_new_stack_is_none() {
    let mut stack = Stack::<u32>::new();
    assert_eq!(stack.pop(), None);
    assert_eq!(stack.pops_in_flight(), 0);
    assert_eq!(stack.live_nodes(), 0);
    assert_eq!(stack.deferred_nodes(), 0);
}

#[test]
fn repeated_pops_on_drained_stack_are_none() {
    let mut stack = Stack::new();
    stack.push(7u8);
    assert_eq!(stack.pop(), Some(7));
    for _ in 0..5 {
        assert_eq!(stack.pop(), None);
    }
    assert_eq!(stack.pops_in_flight(), 0);
}

#[test]
fn racing_pops_on_empty_stack_are_none() {
    let mut stack = Stack::<i64>::new();
    stack.begin_pop();
    stack.begin_pop();
    stack.begin_pop();
    assert_eq!(stack.pops_in_flight(), 3);
    assert_eq!(stack.finish_pop(0), None);
    assert_eq!(stack.finish_pop(0), None);
    assert_eq!(stack.finish_pop(0), None);
    assert_eq!(stack.pops_in_flight(), 0);
}

#[test]
fn solitary_pop_frees_its_node_at_once() {
    let mut stack = Stack::new();
    stack.push(1u32);
    stack.push(2u32);
    assert_eq!(stack.live_nodes(), 2);
    assert_eq!(stack.pop(), Some(2));
    assert_eq!(stack.live_nodes(), 1);
    assert_eq!(stack.deferred_nodes(), 0);
    assert_eq!(stack.pop(), Some(1));
    assert_eq!(stack.live_nodes(), 0);
}

#[test]
fn contended_pop_defers_until_quiescent() {
    let mut stack = Stack::new();
    stack.push(10u32);
    stack.push(20u32);
    stack.push(30u32);
    // Another pop is in flight while this one unlinks the top.
    stack.begin_pop();
    assert_eq!(stack.pop(), Some(30));
    assert_eq!(stack.deferred_nodes(), 1);
    assert_eq!(stack.live_nodes(), 3);
    // The other pop finishes alone and drains the garbage chain.
    assert_eq!(stack.finish_pop(0), Some(20));
    assert_eq!(stack.deferred_nodes(), 0);
    assert_eq!(stack.live_nodes(), 1);
    assert_eq!(stack.pops_in_flight(), 0);
}

#[test]
fn arrival_during_capture_puts_garbage_back() {
    let mut stack = Stack::new();
    stack.push(1u32);
    stack.push(2u32);
    stack.push(3u32);
    stack.begin_pop();
    stack.begin_pop();
    // The first pop sees the other in flight: its node is deferred.
    assert_eq!(stack.finish_pop(0), Some(3));
    assert_eq!(stack.deferred_nodes(), 1);
    // The second is alone when it captures, but a pop enters before it gives
    // back its count: the chain goes back, only its own node is freed.
    assert_eq!(stack.finish_pop(1), Some(2));
    assert_eq!(stack.deferred_nodes(), 1);
    assert_eq!(stack.live_nodes(), 2);
    assert_eq!(stack.pops_in_flight(), 1);
    // The late pop is then alone and frees everything.
    assert_eq!(stack.finish_pop(0), Some(1));
    assert_eq!(stack.deferred_nodes(), 0);
    assert_eq!(stack.live_nodes(), 0);
    assert_eq!(stack.pops_in_flight(), 0);
}

#[test]
fn empty_pop_leaves_garbage_for_a_later_solitary_pop() {
    let mut stack = Stack::new();
    stack.push(5u32);
    stack.begin_pop();
    assert_eq!(stack.pop(), Some(5));
    assert_eq!(stack.deferred_nodes(), 1);
    assert_eq!(stack.finish_pop(0), None);
    assert_eq!(stack.pops_in_flight(), 0);
    assert_eq!(stack.deferred_nodes(), 1);
    stack.push(6u32);
    assert_eq!(stack.pop(), Some(6));
    assert_eq!(stack.deferred_nodes(), 0);
    assert_eq!(stack.live_nodes(), 0);
}

#[test]
fn freed_nodes_are_reused_by_push() {
    let mut stack = Stack::new();
    for i in 0..4u32 {
        stack.push(i);
    }
    for _ in 0..4 {
        stack.pop();
    }
    assert_eq!(stack.live_nodes(), 0);
    stack.push(100u32);
    stack.push(200u32);
    assert_eq!(stack.live_nodes(), 2);
    assert_eq!(stack.pop(), Some(200));
    assert_eq!(stack.pop(), Some(100));
    assert_eq!(stack.pop(), None);
}

#[test]
fn drained_stack_frees_every_node() {
    let mut stack = Stack::new();
    let mut pushed = Vec::new();
    for i in 0..50u64 {
        stack.push(i * 3);
        pushed.push(i * 3);
        if i % 7 == 0 {
            stack.begin_pop();
        }
    }
    let mut popped = Vec::new();
    while stack.pops_in_flight() > 0 {
        match stack.finish_pop(0) {
            Some(v) => popped.push(v),
            None => {}
        }
    }
    while let Some(v) = stack.pop() {
        popped.push(v);
    }
    popped.sort();
    assert_eq!(popped, pushed);
    assert_eq!(stack.deferred_nodes(), 0);
    assert_eq!(stack.live_nodes(), 0);
}
