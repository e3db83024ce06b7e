use std::borrow::Borrow;

use quick_array::{ErrDefine, QuickArray, INVALID_INDEX};

fn collect_values<T: Copy + Default>(array: &QuickArray<T>) -> Vec<T> {
    let mut out = Vec::new();
    let mut it = array.enumerate();
    while let Some((_, e)) = it.next() {
        out.push(*e);
    }
    out
}

fn collect_indices<T: Copy + Default>(array: &QuickArray<T>) -> Vec<u32> {
    let mut out = Vec::new();
    let mut it = array.enumerate();
    while let Some((i, _)) = it.next() {
        out.push(i);
    }
    out
}

#[test]
fn it_works() {
    println!("array with 1 element init");
    let _test_array = QuickArray::<u32>::new(1);

    println!("array init");
    let mut test_array = QuickArray::<u32>::new(5);

    println!("array push 111");
    let _result: Result<u32, ErrDefine> = test_array.push_back(111_u32.borrow());

    println!("array insert 222 after 0");
    let _result: Result<u32, ErrDefine> = test_array.insert_after(0, 222_u32.borrow());

    println!("array insert 333 after 0");
    let _result: Result<u32, ErrDefine> = test_array.insert_after(0, 333_u32.borrow());

    println!("array remove at 1");
    let _result: Result<(), ErrDefine> = test_array.remove_at(1);

    println!("array pop last");
    let _result: Result<(), ErrDefine> = test_array.pop_last();

    println!("array pop last");
    let _result: Result<(), ErrDefine> = test_array.pop_last();

    println!("array pop last");
    let result: Result<(), ErrDefine> = test_array.pop_last();
    match result {
        Err(ErrDefine::ArrayIsEmpty) => {
            println!("Array is empty")
        }
        _ => (),
    }

    println!("array push 4 numbers");
    let _result: Result<u32, ErrDefine> = test_array.push_back(444_u32.borrow());
    let _result: Result<u32, ErrDefine> = test_array.push_front(4444_u32.borrow());
    let _result: Result<u32, ErrDefine> = test_array.push_back(44444_u32.borrow());
    let _result: Result<u32, ErrDefine> = test_array.push_back(444444_u32.borrow());
    let _result: Result<u32, ErrDefine> = test_array.push_back(4444444_u32.borrow());

    println!("array push 6 111");
    let result: Result<u32, ErrDefine> = test_array.push_back(111_u32.borrow());
    match result {
        Err(ErrDefine::ArrayIsFull) => {
            println!("Array is full")
        }
        _ => (),
    }

    println!("array update 999 at 0");
    let _result = test_array.update_at(0, 999_u32.borrow());

    let ele = test_array.get_head_element();
    println!("head value is {}", ele.unwrap());

    let ele = test_array.get_tail_element();
    println!("tail value is {}", ele.unwrap());

    println!("expand array to 10");
    let _ = test_array.expand_to(10);

    let _result: Result<u32, ErrDefine> = test_array.push_back(888_u32.borrow());

    let _result: Result<(), ErrDefine> = test_array.pop_last();

    let _ = test_array.push_front(666_u32.borrow());

    let mut it = test_array.enumerate();
    while let Some((i, e)) = it.next() {
        println!("{}:{}", i, e)
    }
}

#[test]
fn test_lru() {
    const LRU_LEN: u32 = 3;
    let mut array_obj = QuickArray::<i32>::new(LRU_LEN);
    let mut push_fn = |val: i32| {
        if array_obj.is_full() {
            {
                let last_item = array_obj.get_tail_element().unwrap();
                assert_eq!(*last_item, val - (LRU_LEN as i32));
            }
            array_obj.pop_last().expect("pop last error");
        }

        array_obj.push_front(&val).expect("push error");
        if val >= LRU_LEN as i32 {
            assert_eq!(array_obj.get_valid_count(), LRU_LEN);
        } else {
            assert_eq!(array_obj.get_valid_count(), val as u32);
        }
    };

    push_fn(1);
    push_fn(2);
    push_fn(3);
    push_fn(4);
    push_fn(5);
    push_fn(6);
    push_fn(7);
    push_fn(8);
    push_fn(9);
    push_fn(10);
}

#[test]
fn test_normal() {
    const LRU_LEN: u32 = 5;
    // the cache is not full yet
    let total_data = vec![1, 2];
    let mut array_obj = QuickArray::<i32>::new(LRU_LEN);
    for item in &total_data {
        array_obj.push_front(item).expect("push error");
    }
    let array_val: Vec<i32> = collect_values(&array_obj);
    assert_eq!(total_data.len(), array_val.len());
    assert_eq!(total_data.len(), array_obj.get_valid_count() as usize);
    for index in 0..array_val.len() {
        assert_eq!(array_val[index], total_data[total_data.len() - index - 1])
    }

    // clearing
    array_obj.clear();
    assert_eq!(array_obj.get_valid_count(), 0);
    let array_val: Vec<i32> = collect_values(&array_obj);
    assert_eq!(array_val.len(), 0);

    // the cache is full
    let total_data = vec![1, 2, 3, 4, 5, 6, 7, 8, 9];
    for item in &total_data {
        if array_obj.is_full() {
            array_obj.pop_last().expect("pop error");
        }
        array_obj.push_front(item).expect("push error");
    }
    let array_val: Vec<i32> = collect_values(&array_obj);
    assert_eq!(array_val.len(), LRU_LEN as usize);
    assert_eq!(array_obj.get_valid_count(), LRU_LEN);
    for index in 0..array_val.len() {
        assert_eq!(array_val[index], total_data[total_data.len() - index - 1])
    }
}

#[test]
fn capacity_bound_full_insert_fails_unchanged() {
    let mut a = QuickArray::<u32>::new(3);
    assert_eq!(a.push_back(&1), Ok(0));
    assert_eq!(a.push_back(&2), Ok(1));
    assert_eq!(a.push_back(&3), Ok(2));
    assert!(a.is_full());
    assert!(a.get_valid_count() <= a.get_max_size());
    assert_eq!(a.push_back(&4), Err(ErrDefine::ArrayIsFull));
    assert_eq!(a.push_front(&4), Err(ErrDefine::ArrayIsFull));
    assert_eq!(a.insert_after(0, &4), Err(ErrDefine::ArrayIsFull));
    assert_eq!(a.insert_before(0, &4), Err(ErrDefine::ArrayIsFull));
    assert_eq!(a.get_valid_count(), 3);
    assert_eq!(collect_values(&a), vec![1, 2, 3]);
    assert_eq!(collect_indices(&a), vec![0, 1, 2]);
}

#[test]
fn push_back_keeps_insertion_order() {
    let mut a = QuickArray::<i32>::new(4);
    for v in [10, 20, 30, 40] {
        a.push_back(&v).unwrap();
    }
    assert_eq!(collect_values(&a), vec![10, 20, 30, 40]);
}

#[test]
fn insert_after_tail_keeps_insertion_order() {
    let mut a = QuickArray::<i32>::new(4);
    let first = a.push_back(&1).unwrap();
    let second = a.insert_after(first, &2).unwrap();
    let third = a.insert_after(second, &3).unwrap();
    assert_eq!(a.get_tail_index(), Some(third));
    assert_eq!(collect_values(&a), vec![1, 2, 3]);
}

#[test]
fn insert_after_middle_and_before_head() {
    let mut a = QuickArray::<u32>::new(5);
    assert_eq!(a.push_back(&111), Ok(0));
    assert_eq!(a.insert_after(0, &222), Ok(1));
    assert_eq!(a.insert_after(0, &333), Ok(2));
    assert_eq!(collect_values(&a), vec![111, 333, 222]);
    assert_eq!(a.insert_before(0, &444), Ok(3));
    assert_eq!(a.get_head_index(), Some(3));
    assert_eq!(a.get_head_element(), Some(&444));
    assert_eq!(a.insert_before(1, &555), Ok(4));
    assert_eq!(collect_values(&a), vec![444, 111, 333, 555, 222]);
    assert_eq!(collect_indices(&a), vec![3, 0, 2, 4, 1]);
}

#[test]
fn push_front_reverses_insertion_order() {
    let mut a = QuickArray::<i32>::new(4);
    for v in [1, 2, 3, 4] {
        a.push_front(&v).unwrap();
    }
    assert_eq!(collect_values(&a), vec![4, 3, 2, 1]);
}

#[test]
fn remove_middle_keeps_rest() {
    let mut a = QuickArray::<i32>::new(5);
    for v in [1, 2, 3, 4, 5] {
        a.push_back(&v).unwrap();
    }
    assert_eq!(a.remove_at(2), Ok(()));
    assert_eq!(a.get_valid_count(), 4);
    assert_eq!(collect_values(&a), vec![1, 2, 4, 5]);
    assert_eq!(a.get_element(2), None);
    // the freed slot is the first to be reused
    assert_eq!(a.push_back(&6), Ok(2));
    assert_eq!(collect_values(&a), vec![1, 2, 4, 5, 6]);
}

#[test]
fn clear_twice_is_clear_once() {
    let mut a = QuickArray::<i32>::new(3);
    a.push_back(&1).unwrap();
    a.push_back(&2).unwrap();
    a.clear();
    assert_eq!(a.get_valid_count(), 0);
    assert!(a.is_empty());
    assert!(collect_values(&a).is_empty());
    a.clear();
    assert_eq!(a.get_valid_count(), 0);
    assert!(collect_values(&a).is_empty());
    assert_eq!(a.get_max_size(), 3);
    assert_eq!(a.get_element(0), None);
    assert_eq!(a.push_back(&7), Ok(0));
}

#[test]
fn growth_preserves_content() {
    let mut a = QuickArray::<i32>::new(5);
    a.push_front(&1).unwrap();
    a.push_front(&2).unwrap();
    assert_eq!(a.expand_to(10), Ok(()));
    assert_eq!(collect_values(&a), vec![2, 1]);
    assert_eq!(a.get_max_size(), 10);
    for v in 3..11 {
        assert!(a.push_back(&v).is_ok());
    }
    assert!(a.is_full());
    assert_eq!(a.push_back(&11), Err(ErrDefine::ArrayIsFull));
    assert_eq!(collect_values(&a), vec![2, 1, 3, 4, 5, 6, 7, 8, 9, 10]);
}

#[test]
fn growth_hands_out_new_slots_first() {
    let mut a = QuickArray::<u32>::new(3);
    a.push_back(&1).unwrap();
    assert_eq!(a.expand_to(5), Ok(()));
    assert_eq!(a.push_back(&2), Ok(3));
    assert_eq!(a.push_back(&3), Ok(4));
    assert_eq!(a.push_back(&4), Ok(1));
    assert_eq!(a.push_back(&5), Ok(2));
    assert_eq!(collect_indices(&a), vec![0, 3, 4, 1, 2]);
}

#[test]
fn sentinel_safety() {
    let mut a = QuickArray::<u32>::new(4);
    let x = a.push_back(&1).unwrap();
    let y = a.push_back(&2).unwrap();
    assert_eq!(a.get_pre_index(x), None);
    assert_eq!(a.get_next_index(y), None);
    assert_eq!(a.get_next_index(x), Some(y));
    assert_eq!(a.get_pre_index(y), Some(x));
    // unoccupied slot
    assert_eq!(a.get_element(3), None);
    assert_eq!(a.get_pre_index(3), None);
    assert_eq!(a.get_next_index(3), None);
    // out of range
    assert_eq!(a.get_element(4), None);
    assert_eq!(a.get_pre_index(100), None);
    assert_eq!(a.get_next_index(INVALID_INDEX), None);
}

#[test]
fn pop_last_on_empty() {
    let mut a = QuickArray::<u32>::new(2);
    assert_eq!(a.pop_last(), Err(ErrDefine::ArrayIsEmpty));
    a.push_back(&1).unwrap();
    a.clear();
    assert_eq!(a.pop_last(), Err(ErrDefine::ArrayIsEmpty));
}

#[test]
fn expand_to_rejects_small_and_huge() {
    let mut a = QuickArray::<u32>::new(4);
    a.push_back(&9).unwrap();
    assert_eq!(a.expand_to(4), Err(ErrDefine::ArraySizeError));
    assert_eq!(a.expand_to(3), Err(ErrDefine::ArraySizeError));
    assert_eq!(a.expand_to(INVALID_INDEX), Err(ErrDefine::ArraySizeError));
    assert_eq!(a.get_max_size(), 4);
    assert_eq!(collect_values(&a), vec![9]);
    assert_eq!(a.push_back(&8), Ok(1));
}

#[test]
fn invalid_index_errors() {
    let mut a = QuickArray::<u32>::new(3);
    assert_eq!(a.insert_after(0, &1), Err(ErrDefine::InvalidIndex));
    assert_eq!(a.insert_before(5, &1), Err(ErrDefine::InvalidIndex));
    assert_eq!(a.remove_at(1), Err(ErrDefine::InvalidIndex));
    assert_eq!(a.update_at(7, &1), Err(ErrDefine::InvalidIndex));
    a.push_back(&1).unwrap();
    assert_eq!(a.update_at(1, &1), Err(ErrDefine::InvalidIndex));
    assert_eq!(a.update_at(0, &42), Ok(()));
    assert_eq!(a.get_element(0), Some(&42));
    assert_eq!(a.get_valid_count(), 1);
}

#[test]
fn zero_capacity_becomes_one() {
    let mut a = QuickArray::<u32>::new(0);
    assert_eq!(a.get_max_size(), 1);
    assert_eq!(a.push_back(&5), Ok(0));
    assert_eq!(a.push_front(&6), Err(ErrDefine::ArrayIsFull));
    assert_eq!(a.get_head_element(), Some(&5));
    assert_eq!(a.get_tail_element(), Some(&5));
}

#[test]
fn head_and_tail_accessors() {
    let mut a = QuickArray::<u32>::new(3);
    assert_eq!(a.get_head_element(), None);
    assert_eq!(a.get_tail_element(), None);
    assert_eq!(a.get_head_index(), None);
    assert_eq!(a.get_tail_index(), None);
    a.push_back(&1).unwrap();
    a.push_front(&2).unwrap();
    a.push_back(&3).unwrap();
    assert_eq!(a.get_head_element(), Some(&2));
    assert_eq!(a.get_tail_element(), Some(&3));
    assert_eq!(a.get_head_index(), Some(1));
    assert_eq!(a.get_tail_index(), Some(2));
}
