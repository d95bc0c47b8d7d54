use std::collections::HashMap;

use lexica::basic::{
    BasicBlock, BasicContext, BasicNode, BlockBranch, BlockTarget, Branch, Component, Compound, Direction,
    Discriminant, Divergence, Instance, Item, Location, NodeTarget, Projection, Reversibility, Statement, Value,
};
use lexica::node::{Intrinsic, MutationKind, StructurePath, TypeResolution, Variable};
use lexica::source::{Span, Spanned};

fn bytes(start: usize, end: usize) -> Span {
    Span::new(start, end)
}

fn binding(index: usize, value: u64) -> Spanned<Statement> {
    Spanned::new(
        Statement::Binding(Variable::Temporary(index), Compound::Value(Value::Item(Item::Unsigned64(value)))),
        bytes(index, index + 1),
    )
}

fn bound_value(statement: &Spanned<Statement>) -> Option<(usize, u64)> {
    match &statement.node {
        Statement::Binding(Variable::Temporary(index), Compound::Value(Value::Item(Item::Unsigned64(value)))) => {
            Some((*index, *value))
        }
        _ => None,
    }
}

#[test]
fn directions_turn_and_compose() {
    assert_eq!(Direction::Advance.invert(), Direction::Reverse);
    assert_eq!(!Direction::Reverse, Direction::Advance);
    assert_eq!(!!Direction::Advance, Direction::Advance);
    assert_eq!(Direction::Advance ^ Direction::Advance, Direction::Advance);
    assert_eq!(Direction::Reverse ^ Direction::Reverse, Direction::Advance);
    assert_eq!(Direction::Advance ^ Direction::Reverse, Direction::Reverse);
    assert_eq!(Direction::Reverse ^ Direction::Advance, Direction::Reverse);
    for first in [Direction::Advance, Direction::Reverse] {
        for second in [Direction::Advance, Direction::Reverse] {
            assert_eq!(first ^ second, second ^ first);
            for third in [Direction::Advance, Direction::Reverse] {
                assert_eq!((first ^ second) ^ third, first ^ (second ^ third));
            }
        }
    }
}

#[test]
fn reversibility_of_a_direction() {
    assert_eq!(Reversibility::from(Direction::Advance), Reversibility::Entropic);
    assert_eq!(Reversibility::from(Direction::Reverse), Reversibility::Reversible);
}

#[test]
fn component_endpoints() {
    let component = Component::new(NodeTarget(1), NodeTarget(2));
    assert_eq!(component.endpoint(Direction::Advance), NodeTarget(2));
    assert_eq!(component.endpoint(Direction::Reverse), NodeTarget(1));
    assert_eq!(NodeTarget::unresolved(), NodeTarget(usize::MAX));
}

#[test]
fn node_branches_and_inversion() {
    let mut node = BasicNode::new();
    assert!(node.advance.node.is_unreachable());
    *node.branch(Direction::Advance) = Spanned::new(Branch::Jump(NodeTarget(4)), bytes(1, 2));
    node.in_edges(Direction::Reverse).push(NodeTarget(3));
    node.statements.push(binding(0, 10));
    node.statements.push(binding(1, 11));
    node.invert();
    assert!(matches!(node.reverse.node, Branch::Jump(t) if t == NodeTarget(4)));
    assert!(node.advance.node.is_unreachable());
    assert_eq!(node.in_advance, vec![NodeTarget(3)]);
    assert!(node.in_reverse.is_empty());
    assert_eq!(bound_value(&node.statements[0]), Some((1, 11)));
    node.invert();
    assert!(matches!(node.advance.node, Branch::Jump(t) if t == NodeTarget(4)));
    assert_eq!(node.in_reverse, vec![NodeTarget(3)]);
    assert_eq!(bound_value(&node.statements[0]), Some((0, 10)));
}

#[test]
fn branch_targets_and_retargeting() {
    assert_eq!(Branch::Jump(NodeTarget(5)).targets(), vec![NodeTarget(5)]);
    assert!(Branch::Unreachable.targets().is_empty());
    let divergence = Divergence::truth(Value::Item(Item::Truth(true)), NodeTarget(2), NodeTarget(3));
    assert_eq!(divergence.branches, vec![(Discriminant(u64::MAX), NodeTarget(2))]);
    assert_eq!(divergence.targets(), vec![NodeTarget(2), NodeTarget(3)]);

    let mut targets = HashMap::new();
    targets.insert(2, 7);
    targets.insert(5, 8);
    let mut branch = Branch::Divergence(divergence);
    branch.retarget(&targets);
    assert_eq!(branch.targets(), vec![NodeTarget(7), NodeTarget(3)]);
    let mut jump = Branch::Jump(NodeTarget(5));
    jump.retarget(&targets);
    assert!(matches!(jump, Branch::Jump(t) if t == NodeTarget(8)));
    jump.retarget(&targets);
    assert!(matches!(jump, Branch::Jump(t) if t == NodeTarget(8)));
    let mut untouched = Branch::Jump(NodeTarget(1));
    untouched.retarget(&HashMap::new());
    assert!(matches!(untouched, Branch::Jump(t) if t == NodeTarget(1)));
}

#[test]
fn discriminants_of_items() {
    assert_eq!(Discriminant::item(Item::Truth(false)), Discriminant(0));
    assert_eq!(Discriminant::item(Item::Truth(true)), Discriminant(u64::MAX));
    assert_eq!(Discriminant::item(Item::Unsigned64(42)), Discriminant(42));
}

#[test]
fn integer_items_take_the_width_of_their_type() {
    assert!(matches!(Item::integer(Intrinsic::Unsigned8, 300), Some(Item::Unsigned8(44))));
    assert!(matches!(Item::integer(Intrinsic::Signed8, -1), Some(Item::Signed8(-1))));
    assert!(matches!(Item::integer(Intrinsic::Signed16, 40000), Some(Item::Signed16(-25536))));
    assert!(matches!(Item::integer(Intrinsic::Unsigned64, 7), Some(Item::Unsigned64(7))));
    assert!(Item::integer(Intrinsic::Truth, 1).is_none());
    assert!(Item::integer(Intrinsic::Tuple, 1).is_none());
    let item = Item::integer(Intrinsic::Unsigned32, 9).unwrap();
    let resolution = item.type_resolution().unwrap();
    assert_eq!(resolution.0, StructurePath::Intrinsic(Intrinsic::Unsigned32));
    assert!(resolution.1.is_empty());
}

#[test]
fn type_resolution_of_items() {
    assert!(Item::Uninitialised.type_resolution().is_none());
    assert_eq!(Item::Unit.type_resolution().unwrap().0, StructurePath::Intrinsic(Intrinsic::Unit));
    let tuple = Instance::tuple();
    assert_eq!(tuple.type_resolution.0, StructurePath::Intrinsic(Intrinsic::Tuple));
    assert!(tuple.fields.is_empty());
    let parameter = TypeResolution(StructurePath::Intrinsic(Intrinsic::Truth), Vec::new());
    let instance = Instance::new(TypeResolution(StructurePath::Declared(3), vec![parameter]));
    let resolution = Item::Instance(instance).type_resolution().unwrap();
    assert_eq!(resolution.0, StructurePath::Declared(3));
    assert_eq!(resolution.1.len(), 1);
}

#[test]
fn locations_project_into_fields() {
    let location = Location::new(Variable::Named("point".to_string()));
    assert!(location.projections.is_empty());
    let location = location.push(Projection::Field("x".to_string()));
    assert!(matches!(location.projections.as_slice(), [Projection::Field(field)] if field == "x"));
}

#[test]
fn blocks_invert_and_invert_back() {
    let block = BasicBlock::default();
    assert_eq!(block.advance.node, BlockBranch::Unreachable);
    assert_eq!(block.advance.span, Span::sentinel());
    assert_eq!(block.direction, Direction::Advance);
    let mut block = BasicBlock::new_single(binding(0, 1));
    block.statements.push(binding(1, 2));
    block.advance = Spanned::new(BlockBranch::Jump(BlockTarget(4)), bytes(0, 1));
    block.in_reverse.push(BlockTarget(2));
    block.invert();
    assert_eq!(block.reverse.node, BlockBranch::Jump(BlockTarget(4)));
    assert_eq!(block.in_advance, vec![BlockTarget(2)]);
    assert_eq!(block.direction, Direction::Reverse);
    assert_eq!(bound_value(&block.statements[0]), Some((1, 2)));
    block.invert();
    assert_eq!(block.advance.node, BlockBranch::Jump(BlockTarget(4)));
    assert_eq!(block.in_reverse, vec![BlockTarget(2)]);
    assert_eq!(block.direction, Direction::Advance);
    assert_eq!(bound_value(&block.statements[0]), Some((0, 1)));
    assert_eq!(BlockTarget::sentinel(), BlockTarget(usize::MAX));
}

#[test]
fn context_hands_out_temporaries_and_components() {
    let mut context = BasicContext::new(Reversibility::Reversible);
    assert!(context.is_reversible());
    assert!(matches!(context.temporary(), Variable::Temporary(0)));
    assert!(matches!(context.temporary(), Variable::Temporary(1)));
    let first = context.component();
    let second = context.component();
    assert_eq!((first.entry, first.exit), (NodeTarget(1), NodeTarget(1)));
    assert_eq!((second.entry, second.exit), (NodeTarget(2), NodeTarget(2)));
    assert!(!BasicContext::new(Reversibility::Entropic).is_reversible());
}

#[test]
fn joining_fresh_components_merges_their_nodes() {
    let mut context = BasicContext::new(Reversibility::Entropic);
    let first = context.component();
    let first = context.push(first, binding(0, 1));
    let second = context.component();
    let second = context.push(second, binding(1, 2));
    let joined = context.join(first, second, bytes(0, 9));
    let (nodes, component) = context.flatten(joined);
    let entry = &nodes[component.entry.0];
    let statements: Vec<_> = entry.statements.iter().map(bound_value).collect();
    assert_eq!(statements, vec![Some((0, 1)), Some((1, 2))]);
    assert_eq!(component.entry, component.exit);
}

#[test]
fn linking_records_edges_in_both_nodes() {
    let mut context = BasicContext::new(Reversibility::Reversible);
    let first = context.component();
    let second = context.component();
    context.link(Direction::Advance, &first, &second, bytes(1, 2));
    context.link(Direction::Reverse, &second, &first, bytes(1, 2));
    let component = Component::new(first.entry, second.exit);
    let (nodes, component) = context.flatten(component);
    assert_eq!(nodes.len(), 2);
    let (entry, exit) = (&nodes[component.entry.0], &nodes[component.exit.0]);
    assert!(matches!(entry.advance.node, Branch::Jump(t) if t == component.exit));
    assert!(matches!(exit.reverse.node, Branch::Jump(t) if t == component.entry));
    // Flattening renumbers the targets of branches; the in-edges keep the
    // numbers that the nodes had in the context.
    assert_eq!(exit.in_advance, vec![first.entry]);
    assert_eq!(entry.in_reverse, vec![second.exit]);
    assert_eq!((component.entry, component.exit), (NodeTarget(0), NodeTarget(1)));
}

#[test]
fn closing_a_reversible_scope_releases_its_variables() {
    let mut context = BasicContext::new(Reversibility::Reversible);
    context.push_frame();
    let component = context.component();
    let component = context.push(component, binding(0, 1));
    let component = context.push(component, binding(1, 2));
    context.consume_variable(&Variable::Temporary(1));
    let released = context.pop_frame();
    let joined = context.join(component, released, bytes(0, 1));
    let (nodes, component) = context.flatten(joined);
    let statements = &nodes[component.entry.0].statements;
    assert_eq!(statements.len(), 3);
    match &statements[2].node {
        Statement::ImplicitDrop(location) => {
            assert!(matches!(location.variable, Variable::Temporary(0)));
        }
        other => panic!("expected a release, found {:?}", other),
    }
}

#[test]
fn closing_an_entropic_scope_releases_nothing() {
    let mut context = BasicContext::new(Reversibility::Entropic);
    context.push_frame();
    let component = context.component();
    let component = context.push(component, binding(0, 1));
    let released = context.pop_frame();
    let joined = context.join(component, released, bytes(0, 1));
    let (nodes, component) = context.flatten(joined);
    assert_eq!(nodes[component.entry.0].statements.len(), 1);
}

#[test]
fn inverting_a_component_reverses_its_statements() {
    let mut context = BasicContext::new(Reversibility::Reversible);
    let component = context.component();
    let component = context.push(component, binding(0, 1));
    let component = context.push(component, binding(1, 2));
    let component = context.invert(component);
    let (nodes, component) = context.flatten(component);
    let statements: Vec<_> = nodes[component.entry.0].statements.iter().map(bound_value).collect();
    assert_eq!(statements, vec![Some((1, 2)), Some((0, 1))]);
}

#[test]
fn mutation_kinds_compare() {
    assert_eq!(MutationKind::Assign, MutationKind::Assign);
    assert_ne!(MutationKind::Swap, MutationKind::Assign);
}

#[test]
fn targets_discriminants_and_projections_as_text() {
    assert_eq!(NodeTarget(12).text(), "12");
    assert_eq!(BlockTarget(3).text(), "3");
    assert_eq!(BlockTarget::sentinel().text(), "<?>");
    assert_eq!(Discriminant(255).text(), "0xff");
    assert_eq!(Discriminant(0).text(), "0x0");
    assert_eq!(Discriminant(0x1234abcd).text(), "0x1234abcd");
    assert_eq!(Discriminant(u64::MAX).text(), "true");
    assert_eq!(Discriminant::item(Item::Truth(true)).text(), "true");
    assert_eq!(Projection::Field("x".to_string()).text(), ".x");
}

#[test]
fn parameter_type_is_a_tuple_of_the_parameters() {
    let truth = TypeResolution(StructurePath::Intrinsic(Intrinsic::Truth), Vec::new());
    let declared = TypeResolution(StructurePath::Declared(2), vec![TypeResolution(StructurePath::Intrinsic(Intrinsic::Unsigned8), Vec::new())]);
    let function = lexica::basic::BasicFunction {
        parameters: vec![truth, declared],
        component: Component::new(NodeTarget(0), NodeTarget(0)),
        nodes: vec![BasicNode::new()],
    };
    let resolution = function.parameter_type();
    assert_eq!(resolution.0, StructurePath::Intrinsic(Intrinsic::Tuple));
    assert_eq!(resolution.1.len(), 2);
    assert_eq!(resolution.1[0].0, StructurePath::Intrinsic(Intrinsic::Truth));
    assert_eq!(resolution.1[1].0, StructurePath::Declared(2));
    assert_eq!(resolution.1[1].1[0].0, StructurePath::Intrinsic(Intrinsic::Unsigned8));
    assert!(function.node(&NodeTarget(0)).statements.is_empty());
}

#[test]
fn joining_a_node_onto_itself_links_it_both_ways() {
    let mut context = BasicContext::new(Reversibility::Reversible);
    let first = context.component();
    let node = context.component();
    context.link(Direction::Advance, &first, &node, bytes(0, 1));
    let joined = context.join(node, node, bytes(2, 3));
    assert_eq!(joined, node);
    let (nodes, component) = context.flatten(Component::new(first.entry, joined.exit));
    assert_eq!(nodes.len(), 2);
    let exit = &nodes[component.exit.0];
    assert!(matches!(exit.advance.node, Branch::Jump(target) if target == component.exit));
    assert!(matches!(exit.reverse.node, Branch::Jump(target) if target == component.exit));
    assert_eq!(exit.advance.span, bytes(2, 3));
}
