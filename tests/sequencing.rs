use std::cell::RefCell;
use zipmerge::call_three_functions;

#[test]
fn three_functions_run_in_order() {
    let log: RefCell<Vec<u32>> = RefCell::new(Vec::new());
    let mut work_done: u32 = 0;
    call_three_functions(
        || log.borrow_mut().push(1),
        || {
            work_done += 1;
            log.borrow_mut().push(2);
        },
        || log.borrow_mut().push(3),
    );
    assert_eq!(work_done, 1);
    assert_eq!(log.into_inner(), vec![1, 2, 3]);
}
