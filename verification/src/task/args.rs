//! The arguments of a program, as they lie on its stack.
//!
//! From the top of the stack down: the array of the pointers to the arguments,
//! with a zero at its end, and below it the arguments, each with a zero byte at
//! its end, the first one highest.
use vstd::prelude::*;
use vstd::utf8::encode_utf8;
use crate::mm::phys::word_byte;

verus! {

/// The bytes of each argument.
pub open spec fn arg_bytes(args: Seq<String>) -> Seq<Seq<u8>> {
    Seq::new(args.len(), |i: int| encode_utf8(args[i]@))
}

/// The number of bytes of the first `n` arguments, their final zeros included.
pub open spec fn strings_len(args: Seq<Seq<u8>>, n: int) -> int
    decreases n,
{
    if n <= 0 {
        0
    } else {
        strings_len(args, n - 1) + args[n - 1].len() + 1
    }
}

/// The number of bytes that the arguments take on the stack.
pub open spec fn args_len(args: Seq<Seq<u8>>) -> int {
    strings_len(args, args.len() as int) + 8 * (args.len() + 1)
}

/// The address of the array of pointers, on a stack with top `top`.
pub open spec fn argv_base(args: Seq<Seq<u8>>, top: int) -> int {
    top - 8 * (args.len() + 1)
}

/// The address of argument `i`.
pub open spec fn arg_at(args: Seq<Seq<u8>>, top: int, i: int) -> int {
    argv_base(args, top) - strings_len(args, i + 1)
}

/// The stack pointer of the program: below the arguments, a multiple of 16.
pub open spec fn args_sp(args: Seq<Seq<u8>>, top: int) -> int {
    (top - args_len(args)) / 16 * 16
}

/// The first `n` arguments, each with a zero byte at its end, the last one
/// first.
pub open spec fn strings(args: Seq<Seq<u8>>, n: int) -> Seq<u8>
    decreases n,
{
    if n <= 0 {
        Seq::empty()
    } else {
        args[n - 1].push(0) + strings(args, n - 1)
    }
}

/// The bytes of a word, the lowest first.
pub open spec fn word_bytes(w: u64) -> Seq<u8> {
    Seq::new(8, |k: int| word_byte(w, k as u64))
}

/// The pointers to the first `n` arguments.
pub open spec fn pointers(args: Seq<Seq<u8>>, top: int, n: int) -> Seq<u8>
    decreases n,
{
    if n <= 0 {
        Seq::empty()
    } else {
        pointers(args, top, n - 1) + word_bytes(arg_at(args, top, n - 1) as u64)
    }
}

/// All bytes that the arguments take on the stack, the lowest first.
pub open spec fn args_block(args: Seq<Seq<u8>>, top: int) -> Seq<u8> {
    strings(args, args.len() as int) + pointers(args, top, args.len() as int) + word_bytes(0)
}

proof fn lemma_strings_len(args: Seq<Seq<u8>>, n: int, m: int)
    requires
        0 <= n <= m <= args.len(),
    ensures
        0 <= strings_len(args, n) <= strings_len(args, m),
        strings(args, n).len() == strings_len(args, n),
    decreases m,
{
    if m > n {
        lemma_strings_len(args, n, m - 1);
    } else if n > 0 {
        lemma_strings_len(args, n - 1, n - 1);
    }
}

proof fn lemma_pointers_len(args: Seq<Seq<u8>>, top: int, n: int)
    requires
        0 <= n <= args.len(),
    ensures
        pointers(args, top, n).len() == 8 * n,
    decreases n,
{
    if n > 0 {
        lemma_pointers_len(args, top, n - 1);
    }
}

/// The block of the arguments has the length that is reckoned with.
pub proof fn args_block_fills(args: Seq<Seq<u8>>, top: int)
    ensures
        args_block(args, top).len() == args_len(args),
        args_len(args) >= 8,
{
    lemma_strings_len(args, args.len() as int, args.len() as int);
    lemma_pointers_len(args, top, args.len() as int);
}

proof fn lemma_string_found(args: Seq<Seq<u8>>, n: int, i: int)
    requires
        0 <= i < n <= args.len(),
    ensures
        ({
            let at = strings_len(args, n) - strings_len(args, i + 1);
            &&& 0 <= at
            &&& at + args[i].len() + 1 <= strings(args, n).len()
            &&& strings(args, n).subrange(at, at + args[i].len() + 1) == args[i].push(0)
        }),
    decreases n,
{
    lemma_strings_len(args, n, n);
    lemma_strings_len(args, i + 1, n);
    let head = args[n - 1].push(0);
    let tail = strings(args, n - 1);
    if i == n - 1 {
        assert(strings(args, n).subrange(0, head.len() as int) =~= head);
    } else {
        lemma_string_found(args, n - 1, i);
        let at = strings_len(args, n - 1) - strings_len(args, i + 1);
        let m = args[i].len() + 1;
        assert(strings(args, n).subrange(head.len() + at, head.len() + at + m) =~= tail.subrange(
            at,
            at + m,
        ));
    }
}

proof fn lemma_pointer_found(args: Seq<Seq<u8>>, top: int, n: int, i: int)
    requires
        0 <= i < n <= args.len(),
    ensures
        pointers(args, top, n).len() == 8 * n,
        pointers(args, top, n).subrange(8 * i, 8 * i + 8) == word_bytes(
            arg_at(args, top, i) as u64,
        ),
    decreases n,
{
    lemma_pointers_len(args, top, n);
    lemma_pointers_len(args, top, n - 1);
    let all = pointers(args, top, n);
    if i == n - 1 {
        assert(all.subrange(8 * i, 8 * i + 8) =~= word_bytes(arg_at(args, top, i) as u64));
    } else {
        lemma_pointer_found(args, top, n - 1, i);
        assert(all.subrange(8 * i, 8 * i + 8) =~= pointers(args, top, n - 1).subrange(
            8 * i,
            8 * i + 8,
        ));
    }
}

/// A program finds its arguments: entry `i` of the array of pointers holds the
/// address of argument `i`, and the bytes there are those of the argument and a
/// zero. The array ends with a zero.
pub proof fn arguments_are_found(args: Seq<Seq<u8>>, top: int, i: int)
    requires
        0 <= i < args.len(),
    ensures
        ({
            let block = args_block(args, top);
            let bottom = top - args_len(args);
            let at = arg_at(args, top, i) - bottom;
            let base = argv_base(args, top) - bottom;
            let n = args.len() as int;
            &&& block.len() == args_len(args)
            &&& 0 <= at && at + args[i].len() + 1 <= base
            &&& block.subrange(at, at + args[i].len() + 1) == args[i].push(0)
            &&& block.subrange(base + 8 * i, base + 8 * i + 8) == word_bytes(
                arg_at(args, top, i) as u64,
            )
            &&& block.subrange(base + 8 * n, base + 8 * n + 8) == word_bytes(0)
        }),
{
    let n = args.len() as int;
    let block = args_block(args, top);
    let base = argv_base(args, top) - (top - args_len(args));
    args_block_fills(args, top);
    lemma_strings_len(args, n, n);
    lemma_string_found(args, n, i);
    lemma_pointer_found(args, top, n, i);
    let at = strings_len(args, n) - strings_len(args, i + 1);
    let m = args[i].len() + 1;
    assert(block.subrange(at, at + m) =~= strings(args, n).subrange(at, at + m));
    assert(block.subrange(base + 8 * i, base + 8 * i + 8) =~= pointers(args, top, n).subrange(
        8 * i,
        8 * i + 8,
    ));
    assert(block.subrange(base + 8 * n, base + 8 * n + 8) =~= word_bytes(0));
}

/// The array of pointers ends with a zero, at the top of the stack.
pub proof fn argument_array_ends(args: Seq<Seq<u8>>, top: int)
    ensures
        ({
            let block = args_block(args, top);
            let end = argv_base(args, top) - (top - args_len(args)) + 8 * args.len();
            &&& block.len() == args_len(args) == end + 8
            &&& block.subrange(end, end + 8) == word_bytes(0)
        }),
{
    let n = args.len() as int;
    let block = args_block(args, top);
    let end = strings_len(args, n) + 8 * n;
    args_block_fills(args, top);
    lemma_strings_len(args, n, n);
    lemma_pointers_len(args, top, n);
    assert(block.subrange(end, end + 8) =~= word_bytes(0));
}

/// Append the bytes of a word, the lowest first.
pub fn push_word(v: &mut Vec<u8>, w: u64)
    ensures
        final(v)@ == old(v)@ + word_bytes(w),
{
    let mut k: u64 = 0;
    while k < 8
        invariant
            k <= 8,
            v@ == old(v)@ + word_bytes(w).take(k as int),
        decreases 8 - k,
    {
        let b: u64 = (w >> (8 * k)) & 0xff;
        v.push(b as u8);
        assert(v@ =~= old(v)@ + word_bytes(w).take(k + 1));
        k = k + 1;
    }
    assert(word_bytes(w).take(8) =~= word_bytes(w));
}

/// The arguments of a program as they lie below `top`, and the stack pointer
/// that the program starts with.
pub fn lay_out_args(args: &Vec<String>, top: u64) -> (r: (Vec<u8>, u64, u64))
    requires
        args_len(arg_bytes(args@)) <= top,
        args_len(arg_bytes(args@)) <= usize::MAX,
    ensures
        r.0@ == args_block(arg_bytes(args@), top as int),
        r.1 == argv_base(arg_bytes(args@), top as int),
        r.2 == args_sp(arg_bytes(args@), top as int),
{
    let ghost bytes = arg_bytes(args@);
    let n: usize = args.len();
    proof {
        lemma_strings_len(bytes, 0, n as int);
    }
    let mut block: Vec<u8> = Vec::new();
    let mut i: usize = n;
    while i > 0
        invariant
            i <= n == args@.len(),
            bytes == arg_bytes(args@),
            block@ + strings(bytes, i as int) == strings(bytes, n as int),
        decreases i,
    {
        let arg: &[u8] = args[i - 1].as_str().as_bytes();
        let ghost before = block@;
        assert(arg@ == bytes[i - 1]);
        let mut j: usize = 0;
        while j < arg.len()
            invariant
                j <= arg@.len(),
                block@ == before + arg@.take(j as int),
            decreases arg@.len() - j,
        {
            block.push(arg[j]);
            j = j + 1;
            assert(block@ =~= before + arg@.take(j as int));
        }
        block.push(0);
        i = i - 1;
        proof {
            assert(arg@.take(arg@.len() as int) =~= arg@);
            assert(block@ =~= before + bytes[i as int].push(0));
            assert(block@ + strings(bytes, i as int) =~= before + strings(bytes, i + 1));
        }
    }
    assert(block@ =~= strings(bytes, n as int));
    let base: u64 = top - 8 * (n as u64 + 1);
    let mut user_sp: u64 = base;
    while i < n
        invariant
            i <= n == args@.len(),
            bytes == arg_bytes(args@),
            base == argv_base(bytes, top as int),
            args_len(bytes) <= top,
            user_sp == base - strings_len(bytes, i as int),
            block@ == strings(bytes, n as int) + pointers(bytes, top as int, i as int),
        decreases n - i,
    {
        let arg: &[u8] = args[i].as_str().as_bytes();
        proof {
            assert(arg@ == bytes[i as int]);
            lemma_strings_len(bytes, i + 1, n as int);
        }
        user_sp = user_sp - (arg.len() as u64 + 1);
        push_word(&mut block, user_sp);
        i = i + 1;
        assert(block@ =~= strings(bytes, n as int) + pointers(bytes, top as int, i as int));
    }
    push_word(&mut block, 0);
    user_sp = user_sp - user_sp % 16;
    (block, base, user_sp)
}

} // verus!
