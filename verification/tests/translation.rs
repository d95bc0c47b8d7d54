use lexica::basic::Direction;
use lexica::compiler::translation::{
    binary_equality, binary_operation, binary_operator, function_arguments, function_call_argument,
    function_call_arguments, function_header, function_locals, function_return, loop_header, loop_suffix, swap,
    when_branch_labels, when_expressions, Element, Evaluation, FunctionContext, Instruction, StorageTarget,
    TranslationMap,
};
use lexica::node::{
    BinaryOperation, BinaryOperator, Block, Expression, ExpressionBlock, Function, FunctionCall, Identifier, Primitive,
    Size, VariableTarget, WhenBranch, WhenConditional,
};
use lexica::source::{numbered_text, Span, Spanned};

fn span(start: usize, end: usize) -> Span {
    Span::new(start, end)
}

fn texts(elements: &[Spanned<Element>]) -> Vec<String> {
    elements.iter().map(|element| element.node.text()).collect()
}

fn spans(elements: &[Spanned<Element>]) -> Vec<Span> {
    elements.iter().map(|element| element.span).collect()
}

fn target(name: &str, generation: usize) -> VariableTarget {
    VariableTarget(Identifier(name.to_string()), generation)
}

fn empty_block(at: Span) -> Spanned<ExpressionBlock> {
    Spanned::new(
        ExpressionBlock {
            block: Spanned::new(Block { statements: Vec::new() }, at),
            expression: Spanned::new(Expression::Unit, at),
        },
        at,
    )
}

fn function(name: &str, parameters: Vec<Spanned<VariableTarget>>) -> Function {
    Function {
        identifier: Spanned::new(Identifier(name.to_string()), span(0, 4)),
        parameters,
        return_span: span(20, 25),
        expression_block: empty_block(span(10, 30)),
        span: span(0, 30),
    }
}

#[test]
fn numbered_text_writes_the_number_in_decimal() {
    assert_eq!(numbered_text("jump ", 42, ""), "jump 42");
    assert_eq!(numbered_text("", 0, ": pass"), "0: pass");
    assert_eq!(numbered_text("x", 1234567, "y"), "x1234567y");
}

#[test]
fn instruction_text_marks_polarization_and_inversion() {
    let element = Element::Instruction(Instruction {
        direction: Direction::Reverse,
        polarization: Some(Direction::Advance),
        instruction: "add 1 2".to_string(),
    });
    assert_eq!(element.text(), "\t+add' 1 2");
    let element = Element::Instruction(Instruction {
        direction: Direction::Advance,
        polarization: Some(Direction::Reverse),
        instruction: "jump 3".to_string(),
    });
    assert_eq!(element.text(), "\t-jump 3");
    let element = Element::Instruction(Instruction {
        direction: Direction::Reverse,
        polarization: None,
        instruction: "exit".to_string(),
    });
    assert_eq!(element.text(), "\texit'");
    assert_eq!(Element::Other("4: pass".to_string()).text(), "4: pass");
}

#[test]
fn inverting_an_element_twice_restores_it() {
    let given = Element::Instruction(Instruction {
        direction: Direction::Advance,
        polarization: Some(Direction::Advance),
        instruction: "swap 1 2".to_string(),
    });
    let mut element = given.clone();
    element.invert();
    assert_eq!(element.text(), "\t-swap 1 2");
    element.invert();
    assert_eq!(element.text(), given.text());

    let mut unpolarized = Element::Instruction(Instruction {
        direction: Direction::Advance,
        polarization: None,
        instruction: "add 0 1".to_string(),
    });
    unpolarized.invert();
    assert_eq!(unpolarized.text(), "\tadd' 0 1");
    unpolarized.invert();
    assert_eq!(unpolarized.text(), "\tadd 0 1");

    let mut other = Element::Other("label".to_string());
    other.invert();
    assert_eq!(other.text(), "label");
}

#[test]
fn loop_header_and_suffix() {
    let at = span(3, 9);
    let header = loop_header(at, 4, 7);
    assert_eq!(texts(&header), vec!["4: pass", "\t-jump 7"]);
    assert_eq!(spans(&header), vec![at, at]);
    let suffix = loop_suffix(at, 4, 7);
    assert_eq!(texts(&suffix), vec!["\t+jump 4", "7: pass"]);
}

#[test]
fn function_header_of_entry_point_and_other() {
    let main = function("main", Vec::new());
    assert_eq!(texts(&function_header(&main)), vec!["~main {", "\texit'"]);
    let other = function("fibonacci", Vec::new());
    let header = function_header(&other);
    assert_eq!(texts(&header), vec!["~fibonacci {", "\t-return"]);
    assert_eq!(spans(&header), vec![span(0, 4), span(0, 30)]);
}

#[test]
fn function_arguments_restore_each_parameter() {
    let parameters = vec![Spanned::new(target("n", 0), span(5, 6)), Spanned::new(target("m", 0), span(8, 9))];
    let f = function("f", parameters);
    let arguments = function_arguments(&f);
    assert_eq!(texts(&arguments), vec!["\trestore 0", "\trestore 1"]);
    assert_eq!(spans(&arguments), vec![span(5, 6), span(8, 9)]);
}

#[test]
fn function_return_of_each_evaluation() {
    let f = function("f", Vec::new());
    assert_eq!(texts(&function_return(&f, Evaluation::Unit)), vec!["\tpass", "\t+return", "}"]);
    assert_eq!(texts(&function_return(&f, Evaluation::Local(3))), vec!["\tdrop 3", "\t+return", "}"]);
    let immediate = Evaluation::Immediate(Spanned::new(Primitive::Unsigned16(300), span(1, 2)));
    let main = function("main", Vec::new());
    let elements = function_return(&main, immediate);
    assert_eq!(texts(&elements), vec!["\tdrop.i u16 300", "\texit", "}"]);
    assert_eq!(elements[0].span, span(20, 25));
}

#[test]
fn function_locals_declare_each_local() {
    let mut context = FunctionContext::new();
    context.register_local(Size::Unsigned64);
    context.register_local(Size::Boolean);
    let locals = function_locals(span(0, 1), &context);
    assert_eq!(texts(&locals), vec!["@local u64", "@local bool"]);
}

#[test]
fn function_context_labels_and_locals() {
    let mut context = FunctionContext::new();
    assert_eq!(context.label(), 0);
    assert_eq!(context.pair_labels(), (1, 2));
    assert_eq!(context.label(), 3);
    assert_eq!(context.register_local(Size::Signed8), 0);
    assert_eq!(context.clone_local(0), 1);
    assert_eq!(context.local_sizes(), &[Size::Signed8, Size::Signed8]);
}

#[test]
fn registered_variable_is_found_again() {
    let mut context = FunctionContext::new();
    context.push_frame();
    let local = context.register_variable(Spanned::new(target("x", 0), span(1, 2)), Size::Unsigned8);
    assert_eq!(local, 0);
    assert_eq!(context.get_variable(&target("x", 0)), 0);
    context.push_frame();
    let inner = context.register_variable(Spanned::new(target("x", 0), span(3, 4)), Size::Unsigned8);
    assert_eq!(inner, 1);
    assert_eq!(context.get_variable(&target("x", 0)), 1);
    context.pop_frame();
    assert_eq!(context.get_variable(&target("x", 0)), 0);
    assert_eq!(context.drop_variable(&target("x", 0)), 0);
}

#[test]
fn swap_exchanges_the_locals_of_two_variables() {
    let mut context = FunctionContext::new();
    context.push_frame();
    context.register_variable(Spanned::new(target("a", 0), span(0, 1)), Size::Unsigned64);
    context.register_variable(Spanned::new(target("b", 1), span(2, 3)), Size::Unsigned64);
    let elements = swap(span(0, 3), &target("a", 0), &target("b", 1), &context);
    assert_eq!(texts(&elements), vec!["\tswap 0 1"]);
}

#[test]
fn binary_operator_with_local_and_immediate() {
    let mut elements = Vec::new();
    binary_operator(&mut elements, "add", 2, Evaluation::Local(5), span(0, 1));
    binary_operator(
        &mut elements,
        "minus",
        2,
        Evaluation::Immediate(Spanned::new(Primitive::Unsigned8(7), span(4, 5))),
        span(2, 3),
    );
    assert_eq!(texts(&elements), vec!["\tadd 2 5", "\tminus.i 2 7"]);
    assert_eq!(spans(&elements), vec![span(0, 1), span(2, 3)]);
}

fn operation(operator: BinaryOperator) -> Spanned<BinaryOperation> {
    Spanned::new(
        BinaryOperation {
            left: Spanned::new(Expression::Unit, span(0, 1)),
            right: Spanned::new(Expression::Unit, span(4, 5)),
            operator: Spanned::new(operator, span(2, 3)),
        },
        span(0, 5),
    )
}

#[test]
fn binary_addition_clones_the_left_operand() {
    let mut context = FunctionContext::new();
    let left = context.register_local(Size::Unsigned64);
    context.push_evaluation(Evaluation::Immediate(Spanned::new(Primitive::Unsigned64(9), span(4, 5))));
    context.push_evaluation(Evaluation::Local(left));
    let elements = binary_operation(&operation(BinaryOperator::Add), &mut context);
    assert_eq!(texts(&elements), vec!["\t+clone 1 0", "\tadd.i 1 9"]);
    assert_eq!(spans(&elements), vec![span(0, 5), span(2, 3)]);
    assert!(matches!(context.pop_evaluation(), Evaluation::Local(1)));
    assert_eq!(context.local_sizes(), &[Size::Unsigned64, Size::Unsigned64]);
}

#[test]
fn binary_multiplication_of_immediates_promotes_the_left_one() {
    let mut context = FunctionContext::new();
    context.push_evaluation(Evaluation::Local(0));
    context.register_local(Size::Unsigned32);
    context.push_evaluation(Evaluation::Immediate(Spanned::new(Primitive::Unsigned32(3), span(0, 1))));
    let elements = binary_operation(&operation(BinaryOperator::Multiply), &mut context);
    assert_eq!(texts(&elements), vec!["\t+reset 1 3", "\t+clone 2 1", "\tmultiply 2 0"]);
}

#[test]
fn binary_equality_compares_into_a_boolean_local() {
    let mut context = FunctionContext::new();
    context.register_local(Size::Unsigned8);
    context.push_evaluation(Evaluation::Immediate(Spanned::new(Primitive::Unsigned8(1), span(4, 5))));
    context.push_evaluation(Evaluation::Local(0));
    let elements = binary_operation(&operation(BinaryOperator::Equal), &mut context);
    assert_eq!(texts(&elements), vec!["\t+reset 2 1", "\tcompare = 0 2 1"]);
    assert_eq!(context.local_sizes(), &[Size::Unsigned8, Size::Boolean, Size::Unsigned8]);
    assert!(matches!(context.pop_evaluation(), Evaluation::Local(1)));

    let mut context = FunctionContext::new();
    context.register_local(Size::Unsigned8);
    context.register_local(Size::Unsigned8);
    let elements = binary_equality(Vec::new(), &mut context, 0, Evaluation::Local(1), span(0, 1));
    assert_eq!(texts(&elements), vec!["\tcompare = 0 1 2"]);
}

#[test]
fn promoting_an_immediate_resets_a_new_local() {
    let mut context = FunctionContext::new();
    let mut elements = Vec::new();
    let local = Evaluation::Immediate(Spanned::new(Primitive::Boolean(true), span(1, 2))).promote(&mut elements, &mut context);
    assert_eq!(local, 0);
    assert_eq!(texts(&elements), vec!["\t+reset 0 true"]);
    assert_eq!(Evaluation::Local(4).promote(&mut elements, &mut context), 4);
    assert_eq!(elements.len(), 1);
}

#[test]
fn function_call_arguments_drop_each_value_last_first() {
    let mut context = FunctionContext::new();
    context.push_frame();
    context.register_intermediate(3, span(0, 1));
    context.push_evaluation(Evaluation::Unit);
    context.push_evaluation(Evaluation::Local(3));
    context.push_evaluation(Evaluation::Immediate(Spanned::new(Primitive::Unsigned64(12), span(9, 10))));
    let call = FunctionCall {
        function: Spanned::new(Identifier("f".to_string()), span(0, 1)),
        arguments: vec![
            Spanned::new(Expression::Unit, span(2, 3)),
            Spanned::new(Expression::Unit, span(4, 5)),
            Spanned::new(Expression::Unit, span(6, 7)),
        ],
    };
    let elements = function_call_arguments(&call, &mut context);
    assert_eq!(texts(&elements), vec!["\tdrop.i u64 12", "\tdrop 3", ""]);
    assert_eq!(spans(&elements), vec![span(9, 10), span(4, 5), span(2, 3)]);
    let (_, intermediates) = context.pop_frame();
    drop(intermediates);
}

#[test]
fn function_call_argument_of_a_unit_value_is_empty() {
    let mut context = FunctionContext::new();
    context.push_frame();
    let element = function_call_argument(Spanned::new(Evaluation::Unit, span(1, 2)), &mut context);
    assert_eq!(element.node.text(), "");
    assert_eq!(element.span, span(1, 2));
}

fn when_conditional(count: usize) -> Spanned<WhenConditional> {
    let branches = (0..count)
        .map(|index| WhenBranch {
            condition: Spanned::new(Expression::Primitive(Primitive::Boolean(true)), span(index, index + 1)),
            expression_block: empty_block(span(10 * index, 10 * index + 5)),
            end_condition: None,
        })
        .collect();
    Spanned::new(WhenConditional { branches }, span(0, 100))
}

#[test]
fn branch_labels_chain_from_one_branch_to_the_next() {
    let mut context = FunctionContext::new();
    context.label();
    let labels = when_branch_labels(&when_conditional(3), &mut context);
    assert_eq!(labels, vec![(1, 2), (2, 3), (3, 4)]);
    assert_eq!(context.label(), 5);
    let none = when_branch_labels(&when_conditional(0), &mut context);
    assert!(none.is_empty());
    assert_eq!(context.label(), 6);
}

#[test]
fn when_expressions_frame_each_branch() {
    let conditional = when_conditional(2);
    let labels = vec![(1, 2), (2, 3)];
    let first = vec![Spanned::new(Element::Other("first".to_string()), span(50, 51))];
    let second = vec![Spanned::new(Element::Other("second".to_string()), span(52, 53))];
    let elements = when_expressions(&conditional, &labels, vec![first, second], 0, 9);
    assert_eq!(
        texts(&elements),
        vec![
            "1: pass", "\t-jump 0", "first", "\t+jump 9", "2: pass",
            "\t-jump 0", "second", "\t+jump 9", "3: pass",
        ]
    );
    assert_eq!(elements[0].span, span(0, 5));
    assert_eq!(elements[5].span, span(10, 15));
}

#[test]
fn translation_map_finds_the_span_of_each_line() {
    let elements = vec![
        Spanned::new(Element::Other("ab".to_string()), span(100, 110)),
        Spanned::new(Element::Other("cde".to_string()), span(200, 220)),
    ];
    let map = TranslationMap::new(elements);
    assert_eq!(map.text_map().text(), "ab\ncde\n");
    assert_eq!(map.highest_span(0), span(100, 110));
    assert_eq!(map.highest_span(3), span(100, 110));
    assert_eq!(map.highest_span(4), span(200, 220));
    assert_eq!(map.translate_span(span(1, 5)), span(100, 220));
    let mut element = Spanned::new(7u8, span(4, 7));
    map.translate(&mut element);
    assert_eq!(element.node, 7);
    assert_eq!(element.span, span(200, 220));
}

#[test]
fn storage_target_of_a_whole_variable() {
    let storage = StorageTarget::from(target("x", 2));
    assert_eq!(storage, StorageTarget(Identifier("x".to_string()), 2, String::new()));
}
