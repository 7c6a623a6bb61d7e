use funcall::{CallFrame, Double, Func, Single};

/// Reads a frame the way a variadic C function walks its arguments.
struct Walk {
    words: Vec<usize>,
    floats: Vec<u64>,
    next_word: usize,
    next_float: usize,
}

impl Walk {
    fn over(frame: &CallFrame) -> Walk {
        let mut words = frame.int_regs.clone();
        words.extend(frame.pushes.iter().rev());
        Walk { words, floats: frame.float_regs.clone(), next_word: 0, next_float: 0 }
    }

    fn word(&mut self) -> usize {
        let word = self.words[self.next_word];
        self.next_word += 1;
        word
    }

    fn narrow_int(&mut self) -> i32 {
        self.word() as u32 as i32
    }

    fn long_long(&mut self) -> i64 {
        if usize::BITS == 64 {
            self.word() as u64 as i64
        } else {
            let low = self.word() as u64;
            let high = self.word() as u64;
            (high << 32 | low) as i64
        }
    }

    fn double(&mut self) -> f64 {
        if usize::BITS == 64 {
            let bits = self.floats[self.next_float];
            self.next_float += 1;
            f64::from_bits(bits)
        } else {
            f64::from_bits(self.long_long() as u64)
        }
    }
}

#[test]
fn sprintf_takes_integers_and_floats_of_both_widths() {
    let mut buf = vec![0u8; 100];
    let mut func = Func::from_raw(0x1000);
    func.push(buf.as_mut_ptr() as usize);
    func.push(b"%d %lld %.3f %.3f\0".as_ptr() as usize);
    func.push(2233i32);
    func.push(2147483648i64);
    func.push(Single::from_bits(2233.0f32.to_bits()));
    func.push(Double::from_bits(123.456f64.to_bits()));
    let frame = func.cdecl();
    let mut args = Walk::over(&frame);
    assert_eq!(args.word(), buf.as_ptr() as usize);
    args.word();
    let text = format!(
        "{} {} {:.3} {:.3}",
        args.narrow_int(),
        args.long_long(),
        args.double(),
        args.double()
    );
    assert_eq!(text, "2233 2147483648 2233.000 123.456");
}

#[test]
fn sprintf_arguments_arrive_in_source_order() {
    for _ in 0..100 {
        let mut buf = vec![0i8; 100];
        let mut func = Func::from_raw(0x1000);
        func.push(buf.as_mut_ptr() as usize);
        func.push(b"%d %d %d %d %d %d %.4f\0".as_ptr() as usize);
        func.push(3i32);
        func.push(4i32);
        func.push(5i32);
        func.push(6i32);
        func.push(7i32);
        func.push(8i32);
        func.push(Double::from_bits(1234.5678f64.to_bits()));
        let frame = func.cdecl();
        if usize::BITS == 64 {
            assert_eq!(frame.int_regs.len(), 6);
            assert_eq!(frame.pushes, vec![8, 7]);
            assert_eq!(frame.float_regs, vec![1234.5678f64.to_bits()]);
        }
        let mut args = Walk::over(&frame);
        args.word();
        args.word();
        let text = format!(
            "{} {} {} {} {} {} {:.4}",
            args.narrow_int(),
            args.narrow_int(),
            args.narrow_int(),
            args.narrow_int(),
            args.narrow_int(),
            args.narrow_int(),
            args.double()
        );
        assert_eq!(text, "3 4 5 6 7 8 1234.5678");
    }
}

#[test]
fn atoi_returns_in_the_low_register() {
    let text = b"2233\0";
    let mut func = Func::from_raw(0x1000);
    func.push(text.as_ptr() as usize);
    let frame = func.cdecl();
    assert_eq!(Walk::over(&frame).word(), text.as_ptr() as usize);
    let parsed: i32 = "2233".parse().unwrap();
    func.capture(parsed as u32 as usize, 0, 0);
    assert_eq!(func.ret_as_usize(), 2233);
    assert_eq!(func.ret_as_i32(), 2233);
}

#[test]
fn atoll_returns_sixty_four_bits() {
    let text = b"2147483649\0";
    let mut func = Func::from_raw(0x1000);
    func.push(text.as_ptr() as usize);
    let parsed: i64 = "2147483649".parse().unwrap();
    if usize::BITS == 64 {
        func.capture(parsed as usize, 0, 0);
    } else {
        func.capture(parsed as u32 as usize, (parsed >> 32) as usize, 0);
    }
    assert_eq!(func.ret_as_u64(), 2147483649);
}

#[test]
fn atof_returns_in_the_float_register() {
    let text = b"123.456\0";
    let mut func = Func::from_raw(0x1000);
    func.push(text.as_ptr() as usize);
    let parsed: f64 = "123.456".parse().unwrap();
    func.capture(0, 0, parsed.to_bits());
    let value = f64::from_bits(func.ret_as_f64().to_bits());
    assert!((value - 123.456).abs() <= 1e-12);
}

#[test]
fn repeated_calls_plan_the_same_balanced_frame() {
    let mut func = Func::from_raw(0x1000);
    for i in 1..=9 {
        func.push(i as i32);
    }
    let first = func.cdecl();
    let mut stack_pointer: isize = 0x7fff_0000;
    let start = stack_pointer;
    let word = (usize::BITS / 8) as isize;
    for _ in 0..5000 {
        let frame = func.cdecl();
        assert_eq!(frame, first);
        stack_pointer -= word * (frame.padding + frame.pushes.len()) as isize;
        stack_pointer += word * (frame.reclaim + frame.padding) as isize;
        func.capture(45, 0, 0);
    }
    assert_eq!(stack_pointer, start);
}
