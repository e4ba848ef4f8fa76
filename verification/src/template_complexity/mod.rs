//! Synthetic `<template>` complexity for single-file components.

pub mod engine;
pub mod vue;
