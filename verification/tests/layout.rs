use funcall::frame::{i386_frame, sysv_frame};
use funcall::word::{host_is_wide, single_word, split_u128, split_u64};
use funcall::{CallFrame, Double, Func, Single};

fn stack_upwards(frame: &CallFrame) -> Vec<usize> {
    frame.pushes.iter().rev().copied().collect()
}

fn all_words(frame: &CallFrame) -> Vec<usize> {
    let mut seen = frame.int_regs.clone();
    seen.extend(stack_upwards(frame));
    seen
}

#[test]
fn a_fresh_invocation_is_empty() {
    let func = Func::from_raw(0xdead_beef);
    let frame = func.cdecl();
    assert_eq!(frame.target, 0xdead_beef);
    assert!(frame.int_regs.is_empty());
    assert!(frame.float_regs.is_empty());
    assert!(frame.pushes.is_empty());
    assert_eq!(frame.reclaim, 0);
    assert_eq!(frame.padding, 0);
    assert_eq!(frame.vector_count, 0);
    assert_eq!(func.ret_as_usize(), 0);
    assert_eq!(func.ret_as_f64().to_bits(), 0);
}

#[test]
fn the_host_is_either_width() {
    assert_eq!(host_is_wide(), usize::BITS == 64);
}

#[test]
fn narrow_integers_are_zero_extended() {
    let mut func = Func::from_raw(1);
    func.push(-1i8);
    func.push(-1i16);
    func.push(-1i32);
    func.push(i8::MIN);
    func.push(0xabu8);
    assert_eq!(all_words(&func.cdecl()), vec![0xff, 0xffff, 0xffff_ffff, 0x80, 0xab]);
}

#[test]
fn word_sized_integers_keep_their_pattern() {
    let mut func = Func::from_raw(1);
    func.push(-1isize);
    func.push(usize::MAX - 1);
    func.push(-2isize);
    assert_eq!(all_words(&func.cdecl()), vec![usize::MAX, usize::MAX - 1, usize::MAX - 1]);
}

#[test]
fn a_single_word_is_one_word() {
    assert_eq!(single_word(0x1234), vec![0x1234]);
}

#[test]
fn sixty_four_bits_split_by_host() {
    let words = split_u64(0x1122_3344_5566_7788);
    if usize::BITS == 64 {
        assert_eq!(words, vec![0x1122_3344_5566_7788u64 as usize]);
    } else {
        assert_eq!(words, vec![0x5566_7788, 0x1122_3344]);
    }
    let mut func = Func::from_raw(1);
    func.push(-2i64);
    func.push(0x1122_3344_5566_7788u64);
    let mut expected = split_u64(0xffff_ffff_ffff_fffe);
    expected.extend(words);
    assert_eq!(all_words(&func.cdecl()), expected);
}

#[test]
fn a_wide_integer_is_split_low_word_first() {
    let value: u128 = 0x0011_2233_4455_6677_8899_aabb_ccdd_eeff;
    let words = split_u128(value);
    if usize::BITS == 64 {
        assert_eq!(words, vec![0x8899_aabb_ccdd_eeffu64 as usize, 0x0011_2233_4455_6677u64 as usize]);
    } else {
        assert_eq!(words, vec![0xccdd_eeff, 0x8899_aabb, 0x4455_6677, 0x0011_2233]);
    }
    let mut func = Func::from_raw(1);
    func.push(value);
    func.push(-1i128);
    let frame = func.cdecl();
    let mut expected = words;
    expected.extend(split_u128(u128::MAX));
    assert_eq!(all_words(&frame), expected);
}

#[test]
fn six_words_travel_in_registers_the_rest_on_the_stack() {
    let gp: Vec<usize> = (1..=9).collect();
    let frame = sysv_frame(0x4000, &gp, &Vec::new());
    assert_eq!(frame.target, 0x4000);
    assert_eq!(frame.int_regs, vec![1, 2, 3, 4, 5, 6]);
    assert_eq!(frame.pushes, vec![9, 8, 7]);
    assert_eq!(stack_upwards(&frame), vec![7, 8, 9]);
    assert_eq!(frame.reclaim, 3);
    assert_eq!(frame.padding, 1);
    assert!(frame.float_regs.is_empty());
}

#[test]
fn exactly_six_words_push_nothing() {
    let gp: Vec<usize> = (1..=6).collect();
    let frame = sysv_frame(0x4000, &gp, &vec![7, 8]);
    assert_eq!(frame.int_regs, gp);
    assert!(frame.pushes.is_empty());
    assert_eq!(frame.reclaim, 0);
    assert_eq!(frame.padding, 0);
    assert_eq!(frame.float_regs, vec![7, 8]);
    assert_eq!(frame.vector_count, 2);
}

#[test]
fn fewer_than_six_words_fill_the_first_registers() {
    let frame = sysv_frame(0x4000, &vec![10, 20], &Vec::new());
    assert_eq!(frame.int_regs, vec![10, 20]);
    assert!(frame.pushes.is_empty());
}

#[test]
fn the_stack_stays_aligned_and_balanced() {
    for count in 0..40usize {
        let gp: Vec<usize> = (0..count).collect();
        let frame = sysv_frame(1, &gp, &Vec::new());
        let spill = count.saturating_sub(6);
        assert_eq!(frame.pushes.len(), spill);
        assert_eq!(frame.reclaim, spill);
        assert_eq!((frame.pushes.len() + frame.padding) % 2, 0);
        assert!(frame.padding <= 1);
        assert_eq!(all_words(&frame), gp);
    }
}

#[test]
fn cdecl_on_i386_pushes_everything_right_to_left() {
    let gp: Vec<usize> = vec![1, 2, 3];
    let frame = i386_frame(0x4000, &gp, true);
    assert_eq!(frame.target, 0x4000);
    assert!(frame.int_regs.is_empty());
    assert!(frame.float_regs.is_empty());
    assert_eq!(frame.pushes, vec![3, 2, 1]);
    assert_eq!(stack_upwards(&frame), gp);
    assert_eq!(frame.reclaim, 3);
    assert_eq!(frame.padding, 0);
    assert_eq!(frame.vector_count, 0);
}

#[test]
fn stdcall_leaves_the_cleanup_to_the_callee() {
    let gp: Vec<usize> = vec![1, 2, 3];
    let frame = i386_frame(0x4000, &gp, false);
    assert_eq!(frame.pushes, vec![3, 2, 1]);
    assert_eq!(frame.reclaim, 0);
    if usize::BITS == 32 {
        let mut func = Func::from_raw(0x4000);
        func.push(1u32);
        func.push(2u32);
        func.push(3u32);
        assert_eq!(func.stdcall(), frame);
    }
}

#[test]
fn cdecl_follows_the_host() {
    let mut func = Func::from_raw(0x4000);
    let mut gp: Vec<usize> = Vec::new();
    for i in 0..10u32 {
        func.push(i);
        gp.push(i as usize);
    }
    if usize::BITS == 64 {
        assert_eq!(func.cdecl(), sysv_frame(0x4000, &gp, &Vec::new()));
    } else {
        assert_eq!(func.cdecl(), i386_frame(0x4000, &gp, true));
    }
}

#[test]
fn floats_beyond_the_eighth_spill_as_bit_patterns() {
    let mut func = Func::from_raw(1);
    let values: Vec<f64> = (1..=10).map(|i| f64::from(i) + 0.5).collect();
    for value in &values {
        func.push(Double::from_bits(value.to_bits()));
    }
    let frame = func.cdecl();
    if usize::BITS == 64 {
        let in_registers: Vec<u64> = values[..8].iter().map(|v| v.to_bits()).collect();
        let spilled: Vec<usize> = values[8..].iter().map(|v| v.to_bits() as usize).collect();
        assert_eq!(frame.float_regs, in_registers);
        assert_eq!(all_words(&frame), spilled);
        assert_eq!(f64::from_bits(all_words(&frame)[0] as u64), 9.5);
        assert_eq!(f64::from_bits(all_words(&frame)[1] as u64), 10.5);
    } else {
        assert!(frame.float_regs.is_empty());
        assert_eq!(frame.pushes.len(), 20);
    }
}

#[test]
fn exactly_eight_floats_spill_nothing() {
    let mut func = Func::from_raw(1);
    for i in 0..8u32 {
        func.push(Single::from_bits((i as f32).to_bits()));
    }
    let frame = func.cdecl();
    if usize::BITS == 64 {
        assert_eq!(frame.float_regs.len(), 8);
        assert!(all_words(&frame).is_empty());
        assert_eq!(frame.float_regs[7], 7.0f64.to_bits());
    }
}

#[test]
fn integers_and_floats_keep_their_own_order() {
    let mut func = Func::from_raw(1);
    func.push(1u32);
    func.push(Double::from_bits(1.5f64.to_bits()));
    func.push(2u32);
    func.push(Double::from_bits(2.5f64.to_bits()));
    func.push(3u32);
    let frame = func.cdecl();
    if usize::BITS == 64 {
        assert_eq!(frame.int_regs, vec![1, 2, 3]);
        assert_eq!(frame.float_regs, vec![1.5f64.to_bits(), 2.5f64.to_bits()]);
    } else {
        let low = |v: f64| v.to_bits() as u32 as usize;
        let high = |v: f64| (v.to_bits() >> 32) as usize;
        assert_eq!(
            all_words(&frame),
            vec![1, low(1.5), high(1.5), 2, low(2.5), high(2.5), 3]
        );
    }
}

#[test]
fn capture_keeps_the_queues() {
    let mut func = Func::from_raw(0x4000);
    func.push(5u8);
    func.push(Double::from_bits(7));
    let before = func.cdecl();
    func.capture(1, 2, 3);
    assert_eq!(func.cdecl(), before);
    assert_eq!(func.ret_as_usize(), 1);
    assert_eq!(func.ret_as_f64(), Double::from_bits(3));
}

#[test]
fn the_vector_count_is_the_number_of_float_registers_in_use() {
    let mut func = Func::from_raw(1);
    assert_eq!(func.cdecl().vector_count, 0);
    for pushed in 1..=12usize {
        func.push(Double::from_bits((pushed as f64).to_bits()));
        func.push(pushed);
        let frame = func.cdecl();
        if usize::BITS == 64 {
            assert_eq!(frame.vector_count, pushed.min(8));
            assert_eq!(frame.vector_count, frame.float_regs.len());
        } else {
            assert_eq!(frame.vector_count, 0);
        }
    }
}

#[test]
fn integers_alone_leave_the_vector_count_at_zero() {
    let gp: Vec<usize> = (1..=9).collect();
    assert_eq!(sysv_frame(0x4000, &gp, &Vec::new()).vector_count, 0);
    assert_eq!(sysv_frame(0x4000, &gp, &vec![1, 2, 3, 4, 5, 6, 7, 8]).vector_count, 8);
    assert_eq!(i386_frame(0x4000, &gp, false).vector_count, 0);
}
