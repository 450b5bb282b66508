use astor::{IntoMiddlewares, Next, Step};

fn walk(chain: &[u32], handler: &&'static str) -> (Vec<u32>, &'static str) {
    let mut seen = Vec::new();
    let mut next = Next::new(chain, handler);
    loop {
        match next.call() {
            Step::Middleware(m, after) => {
                seen.push(*m);
                next = after;
            }
            Step::Handler(h) => return (seen, *h),
        }
    }
}

#[test]
fn chain_runs_in_order_then_handler() {
    let chain = [1u32, 2, 3];
    let (seen, h) = walk(&chain, &"handler");
    assert_eq!(seen, vec![1, 2, 3]);
    assert_eq!(h, "handler");
}

#[test]
fn empty_chain_goes_straight_to_handler() {
    let chain: [u32; 0] = [];
    let (seen, h) = walk(&chain, &"handler");
    assert!(seen.is_empty());
    assert_eq!(h, "handler");
}

#[test]
fn call_advances_one_step() {
    let chain = [4u32, 5];
    let handler = "h";
    let n = Next { middleware: &chain, index: 1, handler: &handler };
    match n.call() {
        Step::Middleware(m, after) => {
            assert_eq!(*m, 5);
            assert_eq!(after.index, 2);
            assert!(matches!(after.call(), Step::Handler(h) if *h == "h"));
        }
        Step::Handler(_) => panic!("expected middleware"),
    }
}

#[test]
fn index_past_the_end_runs_handler() {
    let chain = [4u32];
    let handler = "h";
    let n = Next { middleware: &chain, index: 3, handler: &handler };
    assert!(matches!(n.call(), Step::Handler(h) if *h == "h"));
}

#[test]
fn unit_gives_no_middleware() {
    let v: Vec<u32> = ().into_middlewares();
    assert!(v.is_empty());
}

#[test]
fn tuples_keep_left_to_right_order() {
    assert_eq!((1u32,).into_middlewares(), vec![1]);
    assert_eq!((1u32, 2).into_middlewares(), vec![1, 2]);
    assert_eq!((1u32, 2, 3).into_middlewares(), vec![1, 2, 3]);
    assert_eq!((4u32, 3, 2, 1).into_middlewares(), vec![4, 3, 2, 1]);
    assert_eq!((1u32, 2, 3, 4, 5).into_middlewares(), vec![1, 2, 3, 4, 5]);
}

#[test]
fn middleware_that_answers_stops_the_walk() {
    let chain = [1u32, 2, 3];
    let handler = "handler";
    let mut seen = Vec::new();
    let mut reached_handler = false;
    let mut next = Next::new(&chain, &handler);
    loop {
        match next.call() {
            Step::Middleware(m, after) => {
                seen.push(*m);
                if *m == 2 {
                    break;
                }
                next = after;
            }
            Step::Handler(_) => {
                reached_handler = true;
                break;
            }
        }
    }
    assert_eq!(seen, vec![1, 2]);
    assert!(!reached_handler);
}
