pub mod entrada;
pub mod error_laberinto;
pub mod laberinto;
pub mod piezas;
