use rust9cc::ast::node::{LocalVar, Node, Nodes};
use rust9cc::ast::parser::Parser;
use rust9cc::gen::{AsmCodeGen, CodeGen, GenError};
use rust9cc::lexer::{tokenize, CharStream};
use rust9cc::{compile, CompileError};
use std::collections::HashMap;

fn parse(input: &str) -> Nodes {
    let mut c = CharStream::new(input);
    let tokens = tokenize(&mut c).unwrap();
    let mut parser = Parser::new(tokens);
    parser.parse().unwrap()
}

/// The lines that the generator writes for the statements of `input`.
fn body(input: &str) -> Vec<String> {
    let mut generator = AsmCodeGen::new();
    generator.gen_from_nodes(parse(input)).unwrap();
    generator.into_lines()
}

fn lines(text: &str) -> Vec<String> {
    text.lines().map(|line| line.to_string()).collect()
}

fn operand(text: &str, regs: &HashMap<String, i64>) -> i64 {
    match text.parse::<i64>() {
        Ok(n) => n,
        Err(_) => regs[text],
    }
}

/// What the run of a program gave: the value in `rax` at the `ret`, the
/// number of instructions run and the depth of the evaluation stack at the
/// `ret`, counted from the bottom of the frame.
struct Run {
    value: i64,
    steps: usize,
    depth_at_return: i64,
}

/// Runs assembly of the shape that the generator writes, from `main` to the
/// first `ret`. The evaluation stack must never reach into the frame.
fn run(program: &[String]) -> Run {
    let mut labels: HashMap<String, usize> = HashMap::new();
    for (i, line) in program.iter().enumerate() {
        if let Some(name) = line.strip_suffix(':') {
            assert!(labels.insert(name.to_string(), i).is_none(), "label {} twice", name);
        }
    }
    let mut regs: HashMap<String, i64> = HashMap::new();
    for r in ["rax", "rdi", "rbp", "rsp"] {
        regs.insert(r.to_string(), 0);
    }
    regs.insert("rsp".to_string(), 1 << 20);
    regs.insert("rbp".to_string(), 77);
    let mut mem: HashMap<i64, i64> = HashMap::new();
    let mut compared: (i64, i64) = (0, 0);
    let mut floor: Option<i64> = None;
    let mut depth: i64 = 0;
    let mut pc: usize = labels["main"];
    let mut steps: usize = 0;
    loop {
        assert!(pc < program.len(), "ran off the end of the program");
        assert!(steps < 1_000_000, "the program does not stop");
        let line = program[pc].trim();
        pc += 1;
        if line.ends_with(':') || line.starts_with('.') {
            continue;
        }
        steps += 1;
        let (op, rest) = match line.split_once(' ') {
            Some((op, rest)) => (op, rest.trim()),
            None => (line, ""),
        };
        let args: Vec<&str> = rest.split(',').map(|a| a.trim()).collect();
        match op {
            "push" => {
                let v = operand(args[0], &regs);
                let sp = regs["rsp"] - 8;
                regs.insert("rsp".to_string(), sp);
                mem.insert(sp, v);
            }
            "pop" => {
                let sp = regs["rsp"];
                regs.insert(args[0].to_string(), mem[&sp]);
                regs.insert("rsp".to_string(), sp + 8);
            }
            "mov" => {
                if args[0] == "[rax]" {
                    mem.insert(regs["rax"], regs[args[1]]);
                } else if args[1] == "[rax]" {
                    let v = *mem.get(&regs["rax"]).expect("read of a variable never written");
                    regs.insert(args[0].to_string(), v);
                } else {
                    let v = regs[args[1]];
                    regs.insert(args[0].to_string(), v);
                }
            }
            "add" => {
                let v = regs[args[0]].wrapping_add(operand(args[1], &regs));
                regs.insert(args[0].to_string(), v);
            }
            "sub" => {
                let v = regs[args[0]].wrapping_sub(operand(args[1], &regs));
                regs.insert(args[0].to_string(), v);
                if args[0] == "rsp" {
                    floor = Some(v);
                }
            }
            "imul" => {
                let v = regs[args[0]].wrapping_mul(operand(args[1], &regs));
                regs.insert(args[0].to_string(), v);
            }
            "cqo" => {}
            "idiv" => {
                let v = regs["rax"].wrapping_div(regs[args[0]]);
                regs.insert("rax".to_string(), v);
            }
            "cmp" => {
                compared = (regs[args[0]], operand(args[1], &regs));
            }
            "sete" | "setne" | "setl" | "setle" => {
                assert_eq!(args[0], "al");
                let holds = match op {
                    "sete" => compared.0 == compared.1,
                    "setne" => compared.0 != compared.1,
                    "setl" => compared.0 < compared.1,
                    _ => compared.0 <= compared.1,
                };
                let rax = (regs["rax"] & !0xff) | (holds as i64);
                regs.insert("rax".to_string(), rax);
            }
            "movzb" => {
                assert_eq!(args, vec!["rax", "al"]);
                let v = regs["rax"] & 0xff;
                regs.insert("rax".to_string(), v);
            }
            "je" => {
                if compared.0 == compared.1 {
                    pc = labels[args[0]];
                }
            }
            "jmp" => {
                pc = labels[args[0]];
            }
            "ret" => {
                assert_eq!(regs["rsp"], 1 << 20, "the return address is not on top");
                assert_eq!(regs["rbp"], 77, "the caller's frame base is lost");
                return Run {
                    value: regs["rax"],
                    steps,
                    depth_at_return: depth,
                };
            }
            other => panic!("unknown instruction: {}", other),
        }
        if let Some(floor) = floor {
            if regs["rsp"] != regs["rbp"] && op != "pop" || regs["rsp"] <= floor {
                assert!(regs["rsp"] <= floor, "the evaluation stack reached into the frame");
                depth = floor - regs["rsp"];
            }
        }
    }
}

fn value_of(source: &str) -> i64 {
    run(&compile(source).unwrap()).value
}

const OPENING: &str = "\
.intel_syntax noprefix
.globl main
main:
  push rbp
  mov rbp, rsp
  sub rsp, 208
";

const CLOSING: &str = "  mov rsp, rbp\n  pop rbp\n  ret\n";

#[test]
fn the_text_of_an_addition() {
    let expected = format!(
        "{}{}{}",
        OPENING,
        "  push 1
  push 2
  pop rdi
  pop rax
  add rax, rdi
  push rax
  pop rax
",
        CLOSING
    );
    assert_eq!(compile("1+2;").unwrap(), lines(&expected));
}

#[test]
fn the_text_of_the_empty_program() {
    let expected = format!("{}{}", OPENING, CLOSING);
    assert_eq!(compile("").unwrap(), lines(&expected));
}

#[test]
fn the_pieces_of_the_text_come_one_by_one() {
    let mut generator = AsmCodeGen::new();
    assert_eq!(generator.output().len(), 0);
    generator.prefix();
    assert_eq!(
        *generator.output(),
        lines(".intel_syntax noprefix\n.globl main\nmain:")
    );
    generator.prologue();
    assert_eq!(*generator.output(), lines(OPENING));
    generator.gen_from_nodes(parse("5;")).unwrap();
    generator.epilogue();
    let expected = format!("{}  push 5\n  pop rax\n{}", OPENING, CLOSING);
    assert_eq!(generator.into_lines(), lines(&expected));
}

#[test]
fn the_code_of_each_operator() {
    let cases: Vec<(&str, Vec<&str>)> = vec![
        ("3+4;", vec!["  add rax, rdi"]),
        ("3-4;", vec!["  sub rax, rdi"]),
        ("3*4;", vec!["  imul rax, rdi"]),
        ("3/4;", vec!["  cqo", "  idiv rdi"]),
        ("3==4;", vec!["  cmp rax, rdi", "  sete al", "  movzb rax, al"]),
        ("3!=4;", vec!["  cmp rax, rdi", "  setne al", "  movzb rax, al"]),
        ("3<4;", vec!["  cmp rax, rdi", "  setl al", "  movzb rax, al"]),
        ("3<=4;", vec!["  cmp rax, rdi", "  setle al", "  movzb rax, al"]),
    ];
    for (source, middle) in cases {
        let mut expected: Vec<String> = lines("  push 3\n  push 4\n  pop rdi\n  pop rax");
        for line in middle {
            expected.push(line.to_string());
        }
        expected.push("  push rax".to_string());
        expected.push("  pop rax".to_string());
        assert_eq!(body(source), expected, "{}", source);
    }
}

#[test]
fn greater_than_is_computed_as_less_than() {
    assert_eq!(body("3>4;"), body("4<3;"));
    assert_eq!(body("3>=4;"), body("4<=3;"));
}

#[test]
fn the_code_of_an_assignment_and_a_read() {
    let expected = "  mov rax, rbp
  sub rax, 8
  push rax
  push 1
  pop rdi
  pop rax
  mov [rax], rdi
  push rdi
  pop rax
  mov rax, rbp
  sub rax, 16
  push rax
  mov rax, rbp
  sub rax, 8
  push rax
  pop rax
  mov rax, [rax]
  push rax
  pop rdi
  pop rax
  mov [rax], rdi
  push rdi
  pop rax
";
    assert_eq!(body("a=1;b=a;"), lines(expected));
}

#[test]
fn the_code_of_return() {
    let expected = "  push 7
  pop rax
  mov rsp, rbp
  pop rbp
  ret
";
    assert_eq!(body("return 7;"), lines(expected));
}

#[test]
fn the_code_of_if_without_else() {
    let expected = "  push 1
  pop rax
  cmp rax, 0
  je  .Lend.L0
  push 2
  pop rax
.Lend.L0:
";
    assert_eq!(body("if (1) 2;"), lines(expected));
}

#[test]
fn the_code_of_if_with_else() {
    let expected = "  push 1
  pop rax
  cmp rax, 0
  je  .Lelse.L0
  push 2
  pop rax
  jmp .Lend.L0
.Lelse.L0:
  push 3
  pop rax
.Lend.L0:
";
    assert_eq!(body("if (1) 2; else 3;"), lines(expected));
}

#[test]
fn the_code_of_while() {
    let expected = ".Lbegin.L0:
  push 1
  pop rax
  cmp rax, 0
  je  .Lend.L0
  push 2
  pop rax
  jmp .Lbegin.L0
.Lend.L0:
";
    assert_eq!(body("while (1) 2;"), lines(expected));
}

#[test]
fn the_code_of_for() {
    let expected = "  push 1
  pop rax
.Lbegin.L0:
  push 2
  pop rax
  cmp rax, 0
  je  .Lend.L0
  push 4
  pop rax
  push 3
  pop rax
  jmp .Lbegin.L0
.Lend.L0:
";
    assert_eq!(body("for (1; 2; 3) 4;"), lines(expected));
}

#[test]
fn an_absent_clause_of_for_leaves_no_line() {
    let expected = ".Lbegin.L0:
  push 5
  pop rax
  mov rsp, rbp
  pop rbp
  ret
  jmp .Lbegin.L0
.Lend.L0:
";
    assert_eq!(body("for (;;) return 5;"), lines(expected));
    let with_condition = ".Lbegin.L0:
  push 2
  pop rax
  cmp rax, 0
  je  .Lend.L0
  push 4
  pop rax
  jmp .Lbegin.L0
.Lend.L0:
";
    assert_eq!(body("for (; 2;) 4;"), lines(with_condition));
}

#[test]
fn a_block_is_its_statements() {
    assert_eq!(body("{ 1; { 2; } return 3; }"), body("1; 2; return 3;"));
    assert_eq!(body("{}"), Vec::<String>::new());
}

#[test]
fn labels_are_counted_in_the_order_of_the_text() {
    let text = body("if (1) while (2) 3; for (;;) 4; if (5) 6; else 7;");
    let labels: Vec<&String> = text.iter().filter(|line| line.ends_with(':')).collect();
    assert_eq!(
        labels,
        vec![
            ".Lbegin.L1:",
            ".Lend.L1:",
            ".Lend.L0:",
            ".Lbegin.L2:",
            ".Lend.L2:",
            ".Lelse.L3:",
            ".Lend.L3:",
        ]
    );
}

#[test]
fn the_label_of_for_follows_the_labels_of_its_first_clause() {
    let tree = Node::For {
        init: Some(Box::new(Node::If {
            cond: Box::new(Node::Num(1)),
            then: Box::new(Node::Num(2)),
            els: None,
        })),
        cond: None,
        step: None,
        then: Box::new(Node::Num(3)),
    };
    let mut generator = AsmCodeGen::new();
    generator.gen_from_nodes(Nodes(vec![Box::new(tree)])).unwrap();
    let expected = "  push 1
  pop rax
  cmp rax, 0
  je  .Lend.L0
  push 2
  pop rax
.Lend.L0:
.Lbegin.L1:
  push 3
  pop rax
  jmp .Lbegin.L1
.Lend.L1:
";
    assert_eq!(generator.into_lines(), lines(expected));
}

#[test]
fn a_generator_goes_on_counting() {
    let mut generator = AsmCodeGen::new();
    generator.gen_from_nodes(parse("if (1) 2;")).unwrap();
    generator.gen_from_nodes(parse("if (1) 2;")).unwrap();
    let text = generator.into_lines();
    assert_eq!(text[3], "  je  .Lend.L0");
    assert_eq!(text[10], "  je  .Lend.L1");
    let mut generator = AsmCodeGen::starting_at(41);
    generator.gen_from_nodes(parse("while (1) 2;")).unwrap();
    assert_eq!(generator.output()[0], ".Lbegin.L41:");
}

#[test]
fn an_assignment_to_a_number_cannot_be_lowered() {
    assert_eq!(
        compile("1=2;"),
        Err(CompileError::Gen(GenError::InvalidAssignmentTarget))
    );
    assert_eq!(
        compile("a=1; { if (a) while (a) for (;;(a+1)=2) a; }"),
        Err(CompileError::Gen(GenError::InvalidAssignmentTarget))
    );
    assert_eq!(
        compile("a = (b = 1) = 2;"),
        Err(CompileError::Gen(GenError::InvalidAssignmentTarget))
    );
}

#[test]
fn a_program_that_cannot_be_lowered_leaves_no_line() {
    let mut generator = AsmCodeGen::new();
    generator.prefix();
    generator.gen_from_nodes(parse("if (1) 2;")).unwrap();
    let before: Vec<String> = generator.output().clone();
    assert_eq!(
        generator.gen_from_nodes(parse("x=1; if (x) 1=2;")),
        Err(GenError::InvalidAssignmentTarget)
    );
    assert_eq!(*generator.output(), before);
    generator.gen_from_nodes(parse("if (1) 2;")).unwrap();
    assert_eq!(
        generator.output()[before.len() + 3],
        "  je  .Lend.L1"
    );
}

#[test]
fn a_program_with_more_labels_than_the_counter_has_left() {
    let mut generator = AsmCodeGen::starting_at(usize::MAX - 1);
    assert_eq!(
        generator.gen_from_nodes(parse("if (1) 2; if (3) 4;")),
        Err(GenError::TooManyLabels)
    );
    assert_eq!(generator.output().len(), 0);
    generator.gen_from_nodes(parse("if (1) 2; 3;")).unwrap();
    assert_eq!(
        generator.output()[3],
        format!("  je  .Lend.L{}", usize::MAX - 1)
    );
    assert_eq!(
        generator.gen_from_nodes(parse("if (1) 2;")),
        Err(GenError::TooManyLabels)
    );
    generator.gen_from_nodes(parse("1;")).unwrap();
}

#[test]
fn a_statement_form_as_an_operand_is_written_as_it_is() {
    let tree = Node::Add {
        l: Box::new(Node::Return {
            expr: Box::new(Node::Num(1)),
        }),
        r: Box::new(Node::Lvar(LocalVar {
            offset: 8,
            ident: Box::new(String::from("a")),
        })),
    };
    let mut generator = AsmCodeGen::new();
    generator.gen_from_nodes(Nodes(vec![Box::new(tree)])).unwrap();
    assert_eq!(generator.output().len(), 5 + 6 + 4 + 1);
}

#[test]
fn errors_come_in_the_order_of_the_stages() {
    assert!(matches!(compile("1=2; $"), Err(CompileError::Lex(_))));
    assert!(matches!(compile("1=2; +;"), Err(CompileError::Parse(_))));
    assert!(matches!(compile("1=2;"), Err(CompileError::Gen(_))));
}

#[test]
fn while_counts_to_ten() {
    let text = compile("x=1;while(x<10) x=x+1; return x;").unwrap();
    let outcome = run(&text);
    assert_eq!(outcome.value, 10);
    assert_eq!(outcome.depth_at_return, 0);
}

#[test]
fn for_adds_up_to_ten() {
    let text = compile("x=0;for(i=0;i<5;i=i+1) x=x+i; return x;").unwrap();
    let outcome = run(&text);
    assert_eq!(outcome.value, 10);
    assert_eq!(outcome.depth_at_return, 0);
}

#[test]
fn for_without_clauses_runs_until_return() {
    let text = compile("for(;;) return 7;").unwrap();
    let outcome = run(&text);
    assert_eq!(outcome.value, 7);
    assert_eq!(outcome.steps, 3 + 5);
    assert_eq!(
        value_of("x=0; for(;;) { x=x+1; if (x==4) return x*10; }"),
        40
    );
    assert_eq!(
        value_of("x=0; for(;;x=x+1) if (x>=3) return x;"),
        3
    );
}

#[test]
fn the_stack_is_level_after_every_statement() {
    let source = "a=0; b=1; for (i=0; i<20; i=i+1) { t=a+b; a=b; b=t; if (i==7) 1; else { 2; 3; } \
                  while (0) 4; } return a;";
    let outcome = run(&compile(source).unwrap());
    assert_eq!(outcome.value, 6765);
    assert_eq!(outcome.depth_at_return, 0);
}

#[test]
fn values_of_expressions() {
    assert_eq!(value_of("return 1+2*3-4/2;"), 5);
    assert_eq!(value_of("return (1+2)*(3-4)/2;"), -1);
    assert_eq!(value_of("return -1+2;"), 1);
    assert_eq!(value_of("return +1-2;"), -1);
    assert_eq!(value_of("return 7/2;"), 3);
    assert_eq!(value_of("return 1>2;"), 0);
    assert_eq!(value_of("return 2>1;"), 1);
    assert_eq!(value_of("return 1>=1;"), 1);
    assert_eq!(value_of("return 1<1;"), 0);
    assert_eq!(value_of("return 1<=1;"), 1);
    assert_eq!(value_of("return 3==3;"), 1);
    assert_eq!(value_of("return 3!=3;"), 0);
    assert_eq!(value_of("return 1 > 2 == 3 < (4 != 5);"), 1);
    assert_eq!(value_of("return 4294967295 + 1;"), 4294967296);
    assert_eq!(value_of("a = b = 3; return a * b;"), 9);
    assert_eq!(value_of("a = 3; return (a = a + 1) + a;"), 8);
    assert_eq!(value_of("1+2;"), 3);
}

#[test]
fn values_of_branches() {
    assert_eq!(value_of("if (0) return 1; return 2;"), 2);
    assert_eq!(value_of("if (5) return 1; return 2;"), 1);
    assert_eq!(value_of("if (0) return 1; else return 2; return 3;"), 2);
    assert_eq!(value_of("if (0-1) return 1; else return 2;"), 1);
    assert_eq!(
        value_of("x=0; if (1) if (0) x=1; else x=2; return x;"),
        2
    );
    assert_eq!(value_of("x=5; while (x) x=x-1; return x;"), 0);
    assert_eq!(value_of("return 1; return 2;"), 1);
}

#[test]
fn twenty_six_variables_fit_the_frame() {
    let source = "a=1;b=2;c=3;d=4;e=5;f=6;g=7;h=8;i=9;j=10;k=11;l=12;m=13;n=14;o=15;p=16;q=17;\
                  r=18;s=19;t=20;u=21;v=22;w=23;x=24;y=25;z=26; return a+z;";
    assert_eq!(value_of(source), 27);
}
