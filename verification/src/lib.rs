//! A terminal snake game's library: the high score board, the snake color
//! option, the window geometry and drawing queue of the text UI, the game's
//! text screens, and the decisions of the game loop around the snake.
pub mod highscore;
pub mod text;
pub mod style;
pub mod tui;
pub mod menus;
pub mod session;
