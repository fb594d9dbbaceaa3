//! The console as two files: typed input that can be read, and output that
//! can be written.

use crate::fs::{File, IoState, IoView, StatMode};
use vstd::prelude::*;

verus! {

/// Console input.
#[derive(Clone, Copy, Debug, PartialEq, Eq, Structural)]
pub struct Stdin;

/// Console output.
#[derive(Clone, Copy, Debug, PartialEq, Eq, Structural)]
pub struct Stdout;

/// The smaller of two numbers.
pub open spec fn min_int(a: int, b: int) -> int {
    if a < b {
        a
    } else {
        b
    }
}

impl File for Stdin {
    open spec fn is_readable(&self) -> bool {
        true
    }

    open spec fn is_writable(&self) -> bool {
        false
    }

    open spec fn valid(&self, io: IoView) -> bool {
        true
    }

    /// The pending input, oldest byte first, as far as `len` reaches.
    open spec fn read_data(&self, io: IoView, len: int) -> Seq<u8> {
        io.input.subrange(0, min_int(len, io.input.len() as int))
    }

    open spec fn after_read(&self, io: IoView, len: int) -> Stdin {
        *self
    }

    /// What was read is no longer pending.
    open spec fn io_after_read(&self, io: IoView, len: int) -> IoView {
        IoView {
            input: io.input.subrange(min_int(len, io.input.len() as int), io.input.len() as int),
            ..io
        }
    }

    open spec fn written(&self, io: IoView, data: Seq<u8>) -> int {
        0
    }

    open spec fn after_write(&self, io: IoView, data: Seq<u8>) -> Stdin {
        *self
    }

    open spec fn io_after_write(&self, io: IoView, data: Seq<u8>) -> IoView {
        io
    }

    open spec fn link_count(&self, io: IoView) -> u32 {
        1
    }

    open spec fn mode(&self, io: IoView) -> StatMode {
        StatMode::Null
    }

    open spec fn inode_number(&self) -> u32 {
        0
    }

    fn readable(&self) -> (r: bool) {
        true
    }

    fn writable(&self) -> (r: bool) {
        false
    }

    fn read(&mut self, io: &mut IoState, len: usize) -> (out: Vec<u8>) {
        let total = io.console.input.len();
        let n = if len < total {
            len
        } else {
            total
        };
        let mut out: Vec<u8> = Vec::new();
        let mut rest: Vec<u8> = Vec::new();
        let mut i: usize = 0;
        while i < total
            invariant
                *io == *old(io),
                total == io.console.input@.len(),
                n <= total,
                i <= total,
                out@ == io.console.input@.subrange(0, min_int(i as int, n as int)),
                rest@ == io.console.input@.subrange(n as int, if i < n {
                    n as int
                } else {
                    i as int
                }),
            decreases total - i,
        {
            let b = io.console.input[i];
            if i < n {
                out.push(b);
                assert(out@ =~= io.console.input@.subrange(0, i + 1));
            } else {
                rest.push(b);
                assert(rest@ =~= io.console.input@.subrange(n as int, i + 1));
            }
            i += 1;
        }
        io.console.input = rest;
        out
    }

    fn write(&mut self, io: &mut IoState, data: &Vec<u8>) -> (n: usize) {
        0
    }

    fn nlinks(&self, io: &IoState) -> (n: u32) {
        1
    }

    fn get_mode(&self, io: &IoState) -> (m: StatMode) {
        StatMode::Null
    }

    fn get_ino(&self) -> (n: u32) {
        0
    }
}

impl File for Stdout {
    open spec fn is_readable(&self) -> bool {
        false
    }

    open spec fn is_writable(&self) -> bool {
        true
    }

    open spec fn valid(&self, io: IoView) -> bool {
        true
    }

    open spec fn read_data(&self, io: IoView, len: int) -> Seq<u8> {
        Seq::empty()
    }

    open spec fn after_read(&self, io: IoView, len: int) -> Stdout {
        *self
    }

    open spec fn io_after_read(&self, io: IoView, len: int) -> IoView {
        io
    }

    /// The console takes everything.
    open spec fn written(&self, io: IoView, data: Seq<u8>) -> int {
        data.len() as int
    }

    open spec fn after_write(&self, io: IoView, data: Seq<u8>) -> Stdout {
        *self
    }

    /// What was written follows what was printed before.
    open spec fn io_after_write(&self, io: IoView, data: Seq<u8>) -> IoView {
        IoView { output: io.output.add(data), ..io }
    }

    open spec fn link_count(&self, io: IoView) -> u32 {
        1
    }

    open spec fn mode(&self, io: IoView) -> StatMode {
        StatMode::Null
    }

    open spec fn inode_number(&self) -> u32 {
        0
    }

    fn readable(&self) -> (r: bool) {
        false
    }

    fn writable(&self) -> (r: bool) {
        true
    }

    fn read(&mut self, io: &mut IoState, len: usize) -> (out: Vec<u8>) {
        Vec::new()
    }

    fn write(&mut self, io: &mut IoState, data: &Vec<u8>) -> (n: usize) {
        let mut i: usize = 0;
        assert(io.console.output@ =~= old(io).console.output@.add(data@.subrange(0, 0)));
        while i < data.len()
            invariant
                i <= data@.len(),
                io.fs == old(io).fs,
                io.offsets == old(io).offsets,
                io.console.input == old(io).console.input,
                io.console.output@ == old(io).console.output@.add(data@.subrange(0, i as int)),
            decreases data@.len() - i,
        {
            io.console.output.push(data[i]);
            i += 1;
            assert(io.console.output@ =~= old(io).console.output@.add(
                data@.subrange(0, i as int),
            ));
        }
        assert(data@.subrange(0, data@.len() as int) =~= data@);
        data.len()
    }

    fn nlinks(&self, io: &IoState) -> (n: u32) {
        1
    }

    fn get_mode(&self, io: &IoState) -> (m: StatMode) {
        StatMode::Null
    }

    fn get_ino(&self) -> (n: u32) {
        0
    }
}

} // verus!
