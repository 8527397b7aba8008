[package]
name = "bpe_tokenizer"
version = "0.1.0"
edition = "2021"
publish = false

[dependencies]
memchr = "2"
memmap2 = "0.9"
regex = "1"
