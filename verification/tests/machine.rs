use pirogue::bytecode::DecodeError;
use pirogue::compiler::Compiler;
use pirogue::machine::{Primitive, StackItem, Vm, VmError, MAX_DEPTH};
use pirogue::memory::MemoryError;

fn compile(text: &str) -> Vec<u8> {
    Compiler::new(text).compile().unwrap()
}

fn run(vm: &mut Vm, text: &str) -> Result<(), VmError> {
    let code = compile(text);
    vm.eval(&code)
}

fn stack_after(text: &str) -> Vec<StackItem> {
    let mut vm = Vm::new();
    run(&mut vm, text).unwrap();
    vm.stack().clone()
}

fn failure(text: &str) -> (VmError, Vec<StackItem>) {
    let mut vm = Vm::new();
    let e = run(&mut vm, text).unwrap_err();
    (e, vm.stack().clone())
}

fn val(v: i64) -> StackItem {
    StackItem::Val(v)
}

fn sym(s: &str) -> StackItem {
    StackItem::Symbol(s.to_string())
}

fn quote(text: &str) -> StackItem {
    StackItem::Quote(compile(text))
}

#[test]
fn a_new_machine_is_empty() {
    let mut vm = Vm::new();
    assert_eq!(vm.stack(), &Vec::<StackItem>::new());
    assert_eq!(vm.take_output(), "");
    assert_eq!(vm.memory().fetch(0), Ok(&0));
    assert_eq!(vm.memory().lookup("x".to_string()), None);
}

#[test]
fn literals_are_pushed() {
    assert_eq!(stack_after("1 2 255"), vec![val(1), val(2), val(255)]);
}

#[test]
fn quotations_are_pushed_and_not_run() {
    assert_eq!(stack_after("[1 2 +]"), vec![StackItem::Quote(vec![1, 1, 1, 2, 2, b'+', 0])]);
}

#[test]
fn unknown_symbols_are_pushed() {
    assert_eq!(stack_after("true hello"), vec![sym("true"), sym("hello")]);
}

#[test]
fn addition() {
    assert_eq!(stack_after("3 4 +"), vec![val(7)]);
}

#[test]
fn subtraction_takes_the_top_from_the_one_below() {
    assert_eq!(stack_after("3 4 -"), vec![val(-1)]);
    assert_eq!(stack_after("10 3 -"), vec![val(7)]);
}

#[test]
fn multiplication() {
    assert_eq!(stack_after("6 7 *"), vec![val(42)]);
    assert_eq!(stack_after("0 5 - 3 *"), vec![val(-15)]);
}

#[test]
fn division_rounds_toward_zero() {
    assert_eq!(stack_after("10 3 /"), vec![val(3)]);
    assert_eq!(stack_after("0 7 - 2 /"), vec![val(-3)]);
    assert_eq!(stack_after("7 0 2 - /"), vec![val(-3)]);
    assert_eq!(stack_after("0 7 - 0 2 - /"), vec![val(3)]);
    assert_eq!(stack_after("0 3 /"), vec![val(0)]);
    assert_eq!(stack_after("2 3 /"), vec![val(0)]);
}

#[test]
fn division_by_zero_fails() {
    assert_eq!(failure("9 1 0 /"), (VmError::DivisionByZero, vec![val(9)]));
}

#[test]
fn overflow_fails() {
    let (e, stack) = failure("255 255 * 255 * 255 * 255 * 255 * 255 * 255 *");
    assert_eq!(e, VmError::Overflow);
    assert_eq!(stack, vec![]);
    let mut vm = Vm::new();
    run(&mut vm, "255 255 * 255 * 255 * 255 * 255 * 255 *").unwrap();
    assert_eq!(vm.stack(), &vec![val(70110209207109375)]);
    assert_eq!(run(&mut vm, "dup + dup + dup + dup + dup + dup + dup +"), Ok(()));
    assert_eq!(vm.stack(), &vec![val(8974106778510000000)]);
    assert_eq!(run(&mut vm, "dup +"), Err(VmError::Overflow));
    assert_eq!(vm.stack(), &vec![]);
}

#[test]
fn the_smallest_integer_divided_by_minus_one_overflows() {
    let mut vm = Vm::new();
    // -(2^63) is reached as -(2^62) + -(2^62).
    run(&mut vm, "0 1 -").unwrap();
    for _ in 0..62 {
        run(&mut vm, "dup +").unwrap();
    }
    run(&mut vm, "dup +").unwrap();
    assert_eq!(vm.stack(), &vec![val(i64::MIN)]);
    assert_eq!(run(&mut vm, "0 1 - /"), Err(VmError::Overflow));
    assert_eq!(vm.stack(), &vec![]);
}

#[test]
fn equality_pushes_a_quoted_truth() {
    assert_eq!(stack_after("5 5 ="), vec![StackItem::Quote(vec![2, b't', b'r', b'u', b'e', 0])]);
    assert_eq!(
        stack_after("5 6 ="),
        vec![StackItem::Quote(vec![2, b'f', b'a', b'l', b's', b'e', 0])]
    );
    assert_eq!(stack_after("5 5 ="), vec![quote("true")]);
    assert_eq!(stack_after("5 5 = i"), vec![sym("true")]);
}

#[test]
fn less_than_pushes_a_bare_truth() {
    assert_eq!(stack_after("5 6 <"), vec![sym("true")]);
    assert_eq!(stack_after("6 5 <"), vec![sym("false")]);
    assert_eq!(stack_after("5 5 <"), vec![sym("false")]);
}

#[test]
fn a_quotation_is_run_by_i() {
    assert_eq!(stack_after("[1 2 +] i"), vec![val(3)]);
    assert_eq!(stack_after("9 [] i"), vec![val(9)]);
}

#[test]
fn i_leaves_what_is_no_quotation() {
    assert_eq!(stack_after("7 i"), vec![val(7)]);
    assert_eq!(stack_after("foo i"), vec![sym("foo")]);
}

#[test]
fn store_then_fetch() {
    assert_eq!(stack_after("65 0 !  0 @"), vec![val(65)]);
    assert_eq!(stack_after("7 255 ! 255 @ 254 @"), vec![val(7), val(0)]);
}

#[test]
fn store_keeps_the_low_byte_of_the_value() {
    assert_eq!(stack_after("255 2 * 9 ! 9 @"), vec![val(254)]);
    assert_eq!(stack_after("0 1 - 9 ! 9 @"), vec![val(255)]);
    assert_eq!(stack_after("0 255 - 9 ! 9 @"), vec![val(1)]);
}

#[test]
fn store_writes_the_memory() {
    let mut vm = Vm::new();
    run(&mut vm, "200 250 250 * 250 5 * + 249 + !").unwrap();
    assert_eq!(vm.stack(), &vec![]);
    assert_eq!(vm.memory().fetch(63999), Ok(&200));
    assert_eq!(vm.memory().fetch(63998), Ok(&0));
}

#[test]
fn fetch_beyond_memory_fails() {
    assert_eq!(
        failure("7 250 250 * 250 6 * + @"),
        (VmError::Memory(MemoryError::OutOfRange), vec![val(7)])
    );
    assert_eq!(failure("0 1 - @"), (VmError::Memory(MemoryError::OutOfRange), vec![]));
}

#[test]
fn store_beyond_memory_fails_and_writes_nothing() {
    let mut vm = Vm::new();
    let r = run(&mut vm, "7 9 250 250 * 250 6 * + !");
    assert_eq!(r, Err(VmError::Memory(MemoryError::OutOfRange)));
    assert_eq!(vm.stack(), &vec![val(7)]);
    assert_eq!(vm.memory().fetch(0), Ok(&0));
    assert_eq!(vm.memory().fetch(64000 % 256), Ok(&0));
    let r = run(&mut vm, "9 0 1 - !");
    assert_eq!(r, Err(VmError::Memory(MemoryError::OutOfRange)));
    assert_eq!(vm.stack(), &vec![val(7)]);
}

#[test]
fn a_huge_address_does_not_wrap() {
    let mut vm = Vm::new();
    // 2^32 and 2^32 + 5 are no addresses, whatever the width of an index.
    run(&mut vm, "1").unwrap();
    for _ in 0..32 {
        run(&mut vm, "dup +").unwrap();
    }
    assert_eq!(vm.stack(), &vec![val(4294967296)]);
    assert_eq!(run(&mut vm, "dup @"), Err(VmError::Memory(MemoryError::OutOfRange)));
    assert_eq!(run(&mut vm, "5 + 1 swap !"), Err(VmError::Memory(MemoryError::OutOfRange)));
    assert_eq!(vm.memory().fetch(5), Ok(&0));
    assert_eq!(vm.memory().fetch(0), Ok(&0));
}

#[test]
fn zap_discards() {
    assert_eq!(stack_after("1 2 zap"), vec![val(1)]);
}

#[test]
fn dup_duplicates() {
    assert_eq!(stack_after("1 2 dup"), vec![val(1), val(2), val(2)]);
    assert_eq!(stack_after("[x] dup"), vec![quote("x"), quote("x")]);
    assert_eq!(stack_after("x dup"), vec![sym("x"), sym("x")]);
}

#[test]
fn dup_then_zap_changes_nothing() {
    assert_eq!(stack_after("1 [2] foo dup zap"), stack_after("1 [2] foo"));
    assert_eq!(stack_after("5 dup zap"), vec![val(5)]);
    let mut vm = Vm::new();
    run(&mut vm, "3 4 ! [9] w define 1 .").unwrap();
    run(&mut vm, "1 2 dup zap").unwrap();
    assert_eq!(vm.stack(), &vec![val(1), val(2)]);
    assert_eq!(vm.memory().fetch(4), Ok(&3));
    assert_eq!(vm.memory().lookup("w".to_string()), Some(vec![1, 9]));
    assert_eq!(vm.take_output(), "1 ");
}

#[test]
fn swap_exchanges() {
    assert_eq!(stack_after("0 1 2 swap"), vec![val(0), val(2), val(1)]);
}

#[test]
fn rot_brings_the_third_to_the_top() {
    assert_eq!(stack_after("0 1 2 3 rot"), vec![val(0), val(2), val(3), val(1)]);
}

#[test]
fn over_copies_the_second() {
    assert_eq!(stack_after("0 1 2 over"), vec![val(0), val(1), val(2), val(1)]);
}

#[test]
fn dip_runs_the_lower_quotation_and_puts_the_upper_back() {
    assert_eq!(stack_after("7 [1 +] [2] dip"), vec![val(8), quote("2")]);
    assert_eq!(stack_after("[1] [2] dip"), vec![val(1), quote("2")]);
}

#[test]
fn dip_wants_two_quotations() {
    assert_eq!(failure("1 [2] dip"), (VmError::NotAQuote, vec![]));
    assert_eq!(failure("3 [1] 2 dip"), (VmError::NotAQuote, vec![val(3), quote("1")]));
}

#[test]
fn dip_loses_the_upper_quotation_if_the_lower_fails() {
    assert_eq!(failure("5 [+] [2] dip"), (VmError::StackUnderflow, vec![val(5)]));
}

#[test]
fn cat_joins_two_quotations() {
    assert_eq!(stack_after("[1] [2] cat"), vec![quote("1 2")]);
    assert_eq!(stack_after("[1] [2] cat i"), vec![val(1), val(2)]);
    assert_eq!(stack_after("[] [] cat"), vec![quote("")]);
}

#[test]
fn cons_wraps_the_lower_quotation_in_front_of_the_upper() {
    assert_eq!(stack_after("[1] [2] cons"), vec![quote("[1] 2")]);
    assert_eq!(stack_after("[1] [2] cons"), vec![StackItem::Quote(vec![3, 2, 1, 1, 1, 2])]);
    assert_eq!(stack_after("[1] [2] cons i"), vec![quote("1"), val(2)]);
}

#[test]
fn unit_wraps_a_quotation() {
    assert_eq!(stack_after("[1 x] unit"), vec![quote("[1 x]")]);
    assert_eq!(stack_after("[1] unit"), vec![StackItem::Quote(vec![3, 2, 1, 1])]);
    assert_eq!(stack_after("[1] unit i i"), vec![val(1)]);
}

#[test]
fn cons_and_unit_keep_the_low_byte_of_a_long_length() {
    let mut vm = Vm::new();
    let mut text = String::from("[");
    for _ in 0..100 {
        text.push_str(" 1");
    }
    text.push_str(" ]");
    run(&mut vm, &text).unwrap();
    run(&mut vm, "dup cat").unwrap();
    let body: Vec<u8> = [1u8, 1].repeat(200);
    assert_eq!(vm.stack(), &vec![StackItem::Quote(body.clone())]);
    run(&mut vm, "dup unit").unwrap();
    match &vm.stack()[1] {
        StackItem::Quote(code) => {
            assert_eq!(code.len(), 402);
            assert_eq!(code[0], 3);
            assert_eq!(code[1], 144);
            assert_eq!(&code[2..], &body[..]);
        }
        other => panic!("{:?}", other),
    }
    run(&mut vm, "zap [7] cons").unwrap();
    match &vm.stack()[0] {
        StackItem::Quote(code) => {
            assert_eq!(code.len(), 404);
            assert_eq!(code[0], 3);
            assert_eq!(code[1], 144);
            assert_eq!(&code[2..402], &body[..]);
            assert_eq!(&code[402..], &[1, 7]);
        }
        other => panic!("{:?}", other),
    }
}

#[test]
fn words_are_defined_and_run() {
    let mut vm = Vm::new();
    run(&mut vm, "[dup *] square define").unwrap();
    assert_eq!(vm.stack(), &vec![]);
    run(&mut vm, "4 square").unwrap();
    assert_eq!(vm.stack(), &vec![val(16)]);
}

#[test]
fn redefinition_shadows_and_keeps_the_old() {
    // `<` leaves the bare symbol `true`, which can so be defined twice.
    let mut vm = Vm::new();
    run(&mut vm, "[dup *] 5 6 < define").unwrap();
    run(&mut vm, "4 true").unwrap();
    assert_eq!(vm.stack(), &vec![val(16)]);
    run(&mut vm, "[dup +] 5 6 < define").unwrap();
    run(&mut vm, "true").unwrap();
    assert_eq!(vm.stack(), &vec![val(32)]);
    assert_eq!(vm.memory().definitions("true"), vec![compile("dup *"), compile("dup +")]);
    assert_eq!(vm.memory().lookup("true".to_string()), Some(compile("dup +")));
}

#[test]
fn a_word_may_use_other_words() {
    let mut vm = Vm::new();
    run(&mut vm, "[dup *] square define [square square] fourth define 3 fourth").unwrap();
    assert_eq!(vm.stack(), &vec![val(81)]);
}

#[test]
fn define_wants_a_symbol_on_top_and_a_quotation_below() {
    assert_eq!(failure("[1] 2 define"), (VmError::NotASymbol, vec![quote("1")]));
    assert_eq!(failure("1 w define"), (VmError::NotAQuote, vec![]));
    assert_eq!(failure("w define"), (VmError::StackUnderflow, vec![sym("w")]));
}

#[test]
fn a_defined_name_is_run_even_where_a_name_is_wanted() {
    let mut vm = Vm::new();
    run(&mut vm, "[1] w define").unwrap();
    assert_eq!(run(&mut vm, "[2] w define"), Err(VmError::NotASymbol));
    assert_eq!(vm.stack(), &vec![quote("2")]);
}

#[test]
fn print_writes_the_item_and_a_space() {
    let mut vm = Vm::new();
    run(&mut vm, "5 . foo . [1 2] . 0 3 - .").unwrap();
    assert_eq!(vm.stack(), &vec![]);
    assert_eq!(vm.take_output(), "5 foo <bytecode:4> -3 ");
    assert_eq!(vm.take_output(), "");
}

#[test]
fn print_stack_writes_a_line() {
    let mut vm = Vm::new();
    run(&mut vm, ".s 1 foo [2 [bar] 0 3 -] .s").unwrap();
    assert_eq!(vm.take_output(), "[]\n[1 foo [2 [bar] 0 3 -]]\n");
    assert_eq!(vm.stack().len(), 3);
    run(&mut vm, "0 3 - .s").unwrap();
    assert_eq!(vm.take_output(), "[1 foo [2 [bar] 0 3 -] -3]\n");
}

#[test]
fn print_appends_the_stack_line() {
    let mut vm = Vm::new();
    run(&mut vm, "1 . 2 [x]").unwrap();
    assert_eq!(vm.print(), Ok(()));
    assert_eq!(vm.take_output(), "1 [2 [x]]\n");
    assert_eq!(vm.stack(), &vec![val(2), quote("x")]);
}

#[test]
fn print_fails_on_a_quotation_that_cannot_be_read() {
    let mut vm = Vm::new();
    vm.eval(&vec![1, 1, 3, 1, 9, 1, 2]).unwrap();
    assert_eq!(vm.stack(), &vec![val(1), StackItem::Quote(vec![9]), val(2)]);
    assert_eq!(
        vm.print(),
        Err(VmError::Decode(DecodeError::UnknownOpcode { index: 1, opcode: 9 }))
    );
    assert_eq!(vm.take_output(), "");
    assert_eq!(
        run(&mut vm, "7 . .s"),
        Err(VmError::Decode(DecodeError::UnknownOpcode { index: 1, opcode: 9 }))
    );
    assert_eq!(vm.take_output(), "7 ");
    assert_eq!(vm.stack().len(), 3);
}

#[test]
fn items_have_a_text() {
    assert_eq!(val(-12).text(), "-12");
    assert_eq!(sym("dup").text(), "dup");
    assert_eq!(StackItem::Quote(vec![1, 2, 3]).text(), "<bytecode:3>");
    assert_eq!(StackItem::Quote(vec![]).text(), "<bytecode:0>");
}

#[test]
fn addition_on_too_small_a_stack_underflows_and_touches_nothing() {
    assert_eq!(failure("+"), (VmError::StackUnderflow, vec![]));
    assert_eq!(failure("5 +"), (VmError::StackUnderflow, vec![val(5)]));
    assert_eq!(failure("foo +"), (VmError::StackUnderflow, vec![sym("foo")]));
    assert_eq!(failure("[1] +"), (VmError::StackUnderflow, vec![quote("1")]));
}

#[test]
fn every_primitive_underflows_without_touching_the_stack() {
    let one = ["-", "*", "/", "=", "<", "!", "swap", "over", "rot", "dip", "cat", "cons", "define"];
    for word in one {
        let mut vm = Vm::new();
        run(&mut vm, "[1]").unwrap();
        assert_eq!(run(&mut vm, word), Err(VmError::StackUnderflow), "{}", word);
        assert_eq!(vm.stack(), &vec![quote("1")], "{}", word);
    }
    let none = ["@", ".", "zap", "dup", "i", "unit", "+"];
    for word in none {
        let mut vm = Vm::new();
        assert_eq!(run(&mut vm, word), Err(VmError::StackUnderflow), "{}", word);
        assert_eq!(vm.stack(), &vec![], "{}", word);
    }
    let mut vm = Vm::new();
    run(&mut vm, "1 2").unwrap();
    assert_eq!(run(&mut vm, "rot"), Err(VmError::StackUnderflow));
    assert_eq!(vm.stack(), &vec![val(1), val(2)]);
}

#[test]
fn an_operand_of_the_wrong_kind_is_lost_with_those_above_it() {
    assert_eq!(failure("9 1 foo +"), (VmError::NotAVal, vec![val(9), val(1)]));
    assert_eq!(failure("9 foo 1 +"), (VmError::NotAVal, vec![val(9)]));
    assert_eq!(failure("9 [1] 2 cat"), (VmError::NotAQuote, vec![val(9), quote("1")]));
    assert_eq!(failure("9 1 [2] cat"), (VmError::NotAQuote, vec![val(9)]));
    assert_eq!(failure("9 foo @"), (VmError::NotAVal, vec![val(9)]));
    assert_eq!(failure("9 foo unit"), (VmError::NotAQuote, vec![val(9)]));
    assert_eq!(failure("9 1 [2] !"), (VmError::NotAVal, vec![val(9), val(1)]));
    assert_eq!(failure("9 [1] 2 !"), (VmError::NotAVal, vec![val(9)]));
}

#[test]
fn what_was_done_before_a_failure_stays_done() {
    let mut vm = Vm::new();
    let r = run(&mut vm, "1 . 9 7 ! [2] w define 3 4 5 + + + 6");
    assert_eq!(r, Err(VmError::StackUnderflow));
    assert_eq!(vm.stack(), &vec![val(12)]);
    assert_eq!(vm.take_output(), "1 ");
    assert_eq!(vm.memory().fetch(7), Ok(&9));
    assert_eq!(vm.memory().lookup("w".to_string()), Some(vec![1, 2]));
}

#[test]
fn bytecode_that_cannot_be_read_fails() {
    let mut vm = Vm::new();
    assert_eq!(
        vm.eval(&vec![1, 5, 9]),
        Err(VmError::Decode(DecodeError::UnknownOpcode { index: 3, opcode: 9 }))
    );
    assert_eq!(vm.stack(), &vec![val(5)]);
    assert_eq!(vm.eval(&vec![1]), Err(VmError::Decode(DecodeError::EndOfCode)));
    assert_eq!(vm.eval(&vec![3]), Err(VmError::Decode(DecodeError::EndOfCode)));
    assert_eq!(vm.stack(), &vec![val(5)]);
}

#[test]
fn bytecode_cut_short_is_read_as_far_as_it_goes() {
    let mut vm = Vm::new();
    vm.eval(&vec![2, b'a', b'b']).unwrap();
    vm.eval(&vec![3, 9, 1, 2]).unwrap();
    vm.eval(&vec![2]).unwrap();
    assert_eq!(vm.stack(), &vec![sym("ab"), StackItem::Quote(vec![1, 2]), sym("")]);
}

#[test]
fn a_failure_inside_a_quotation_is_passed_up() {
    assert_eq!(failure("1 [2 +  +] i"), (VmError::StackUnderflow, vec![val(3)]));
    let mut vm = Vm::new();
    vm.eval(&vec![3, 1, 9, 2, b'i', 0]).unwrap_err();
    assert_eq!(vm.stack(), &vec![]);
}

#[test]
fn endless_nesting_is_stopped() {
    assert_eq!(failure("[dup i] dup i"), (VmError::TooDeep, vec![quote("dup i")]));
    let mut vm = Vm::new();
    run(&mut vm, "[1 loop] loop define").unwrap();
    assert_eq!(run(&mut vm, "loop"), Err(VmError::TooDeep));
    assert_eq!(vm.stack().len(), MAX_DEPTH);
}

#[test]
fn nesting_is_counted_from_the_depth_given() {
    let mut vm = Vm::new();
    let code = compile("[[[1] i] i] i");
    assert_eq!(vm.eval_within(&code, 2), Err(VmError::TooDeep));
    assert_eq!(vm.stack(), &vec![]);
    assert_eq!(vm.eval_within(&code, 3), Ok(()));
    assert_eq!(vm.stack(), &vec![val(1)]);
    assert_eq!(vm.eval_within(&compile("1 2 +"), 0), Ok(()));
    assert_eq!(vm.eval_within(&compile("[] i"), 0), Err(VmError::TooDeep));
    run(&mut vm, "[5] five define").unwrap();
    assert_eq!(vm.eval_within(&compile("five"), 0), Err(VmError::TooDeep));
    assert_eq!(vm.eval_within(&compile("five"), 1), Ok(()));
}

#[test]
fn deep_nesting_within_the_limit_runs() {
    let mut text = String::from("7");
    for _ in 0..MAX_DEPTH {
        text = format!("[{}] i", text);
        if text.len() > 200 {
            break;
        }
    }
    assert_eq!(stack_after(&text), vec![val(7)]);
    let mut vm = Vm::new();
    run(&mut vm, "[1] w0 define").unwrap();
    for k in 1..MAX_DEPTH {
        run(&mut vm, &format!("[w{}] w{} define", k - 1, k)).unwrap();
    }
    assert_eq!(run(&mut vm, &format!("w{}", MAX_DEPTH - 1)), Ok(()));
    assert_eq!(vm.stack(), &vec![val(1)]);
    run(&mut vm, &format!("[w{}] w{} define", MAX_DEPTH - 1, MAX_DEPTH)).unwrap();
    assert_eq!(run(&mut vm, &format!("w{}", MAX_DEPTH)), Err(VmError::TooDeep));
}

#[test]
fn symbols_are_applied_one_by_one() {
    let mut vm = Vm::new();
    assert_eq!(vm.apply_symbol("dup".to_string()), Err(VmError::StackUnderflow));
    assert_eq!(vm.apply_symbol("nothing".to_string()), Ok(false));
    assert_eq!(vm.stack(), &vec![]);
    run(&mut vm, "2 3").unwrap();
    assert_eq!(vm.apply_symbol("*".to_string()), Ok(true));
    assert_eq!(vm.stack(), &vec![val(6)]);
    run(&mut vm, "[dup +] double define").unwrap();
    assert_eq!(vm.apply_symbol("double".to_string()), Ok(true));
    assert_eq!(vm.stack(), &vec![val(12)]);
    assert_eq!(vm.apply_symbol_within("double".to_string(), 0), Err(VmError::TooDeep));
    assert_eq!(vm.apply_symbol_within("dup".to_string(), 0), Ok(true));
}

#[test]
fn primitives_are_found_by_name() {
    let names = [
        ("+", Primitive::Add),
        ("-", Primitive::Sub),
        ("*", Primitive::Mul),
        ("/", Primitive::Div),
        ("=", Primitive::Equal),
        ("<", Primitive::Less),
        ("@", Primitive::Fetch),
        ("!", Primitive::Store),
        (".", Primitive::Print),
        (".s", Primitive::PrintStack),
        ("zap", Primitive::Zap),
        ("dup", Primitive::Dup),
        ("swap", Primitive::Swap),
        ("rot", Primitive::Rot),
        ("over", Primitive::Over),
        ("i", Primitive::Apply),
        ("dip", Primitive::Dip),
        ("cat", Primitive::Cat),
        ("cons", Primitive::Cons),
        ("unit", Primitive::Unit),
        ("define", Primitive::Define),
    ];
    for (name, p) in names {
        assert_eq!(Primitive::named(name), Some(p));
    }
    for name in ["", "++", "Dup", "dupe", "du", " dup", "s.", "true", "false", "print"] {
        assert_eq!(Primitive::named(name), None);
    }
}

#[test]
fn primitives_know_how_many_operands_they_take() {
    assert_eq!(Primitive::PrintStack.arity(), 0);
    assert_eq!(Primitive::Dup.arity(), 1);
    assert_eq!(Primitive::Unit.arity(), 1);
    assert_eq!(Primitive::Fetch.arity(), 1);
    assert_eq!(Primitive::Add.arity(), 2);
    assert_eq!(Primitive::Store.arity(), 2);
    assert_eq!(Primitive::Define.arity(), 2);
    assert_eq!(Primitive::Dip.arity(), 2);
    assert_eq!(Primitive::Rot.arity(), 3);
}

#[test]
fn primitives_are_applied_directly() {
    let mut vm = Vm::new();
    run(&mut vm, "1 2").unwrap();
    assert_eq!(vm.apply_primitive(Primitive::Swap, 0), Ok(()));
    assert_eq!(vm.stack(), &vec![val(2), val(1)]);
    run(&mut vm, "[+]").unwrap();
    assert_eq!(vm.apply_primitive(Primitive::Apply, 0), Err(VmError::TooDeep));
    assert_eq!(vm.stack(), &vec![val(2), val(1)]);
    run(&mut vm, "[+]").unwrap();
    assert_eq!(vm.apply_primitive(Primitive::Apply, 1), Ok(()));
    assert_eq!(vm.stack(), &vec![val(3)]);
}

#[test]
fn items_are_popped() {
    let mut vm = Vm::new();
    run(&mut vm, "1 foo [2] 3").unwrap();
    assert_eq!(vm.pop(), Ok(val(3)));
    assert_eq!(vm.pop_quote(), Ok(vec![1, 2]));
    assert_eq!(vm.pop_symbol(), Ok("foo".to_string()));
    assert_eq!(vm.pop_val(), Ok(1));
    assert_eq!(vm.pop(), Err(VmError::StackUnderflow));
    assert_eq!(vm.pop_val(), Err(VmError::StackUnderflow));
    assert_eq!(vm.pop_symbol(), Err(VmError::StackUnderflow));
    assert_eq!(vm.pop_quote(), Err(VmError::StackUnderflow));
}

#[test]
fn a_pop_of_the_wrong_kind_fails_and_takes_the_item() {
    let mut vm = Vm::new();
    run(&mut vm, "1 2 3 foo [4] bar").unwrap();
    assert_eq!(vm.pop_val(), Err(VmError::NotAVal));
    assert_eq!(vm.pop_symbol(), Err(VmError::NotASymbol));
    assert_eq!(vm.pop_quote(), Err(VmError::NotAQuote));
    assert_eq!(vm.pop_quote(), Err(VmError::NotAQuote));
    assert_eq!(vm.pop_symbol(), Err(VmError::NotASymbol));
    assert_eq!(vm.stack(), &vec![val(1)]);
}

#[test]
fn items_and_instructions_can_be_cloned() {
    for item in [val(5), sym("five"), quote("5")] {
        assert_eq!(item.clone(), item);
    }
}

#[test]
fn machine_errors_say_what_went_wrong() {
    assert_eq!(VmError::StackUnderflow.message(), "Stack Underflow");
    assert_eq!(VmError::NotAVal.message(), "TOS is not a val");
    assert_eq!(VmError::NotASymbol.message(), "TOS is not a symbol");
    assert_eq!(VmError::NotAQuote.message(), "TOS is not a quote");
    assert_eq!(VmError::Memory(MemoryError::OutOfRange).message(), "no memory at index");
    assert_eq!(VmError::DivisionByZero.message(), "Division by zero");
    assert_eq!(VmError::Overflow.message(), "Arithmetic overflow");
    assert_eq!(VmError::TooDeep.message(), "Evaluation nested too deep");
    assert_eq!(
        VmError::Decode(DecodeError::EndOfCode).message(),
        "Could not find code at index"
    );
    assert_eq!(
        VmError::Decode(DecodeError::UnknownOpcode { index: 1, opcode: 0 }).message(),
        "Index 1: Unknown opcode 0"
    );
}
